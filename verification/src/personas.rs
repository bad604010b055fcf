//! What each persona answers: the delay before answering, the HTTP
//! response, the Redis replies and the raw echo. The connection handling
//! around these decisions (reads, writes, timeouts) is the application's.
use vstd::prelude::*;
use vstd::utf8::encode_utf8;
use crate::persona::{jitter_range, Persona};
use crate::text::{chars_equal, chars_of, has_prefix_at, string_of, trim_chars, trimmed};

verus! {

/// Calls `rand::random::<u64>`. Nothing is promised of the value: it is random.
#[verifier::external_body]
fn random_u64() -> u64 {
    rand::random::<u64>()
}

/// The answer delay, in milliseconds, that the random draw `r` selects for a
/// persona with jitter range `(min, max)`: `r mod (max - min + 1) + min`;
/// none when `max` is zero.
pub open spec fn jitter_for_draw(p: Persona, r: u64) -> Option<u64> {
    let (lo, hi) = jitter_range(p);
    if hi > 0 {
        Some((r % ((hi - lo + 1) as u64) + lo) as u64)
    } else {
        None
    }
}

/// The delay the draw `r` selects; see `jitter_for_draw`.
pub fn jitter_from_draw(p: Persona, r: u64) -> (d: Option<u64>)
    ensures
        d == jitter_for_draw(p, r),
        d matches Some(ms) ==> jitter_range(p).0 <= ms <= jitter_range(p).1,
{
    let (lo, hi) = p.jitter_ms();
    if hi > 0 {
        Some(r % (hi - lo + 1) + lo)
    } else {
        None
    }
}

/// A random answer delay for the persona, inside its jitter range.
pub fn pick_jitter(p: Persona) -> (d: Option<u64>)
    ensures
        exists|r: u64| d == jitter_for_draw(p, r),
        d matches Some(ms) ==> jitter_range(p).0 <= ms <= jitter_range(p).1,
{
    jitter_from_draw(p, random_u64())
}

/// The text of the HTTP persona's response.
pub open spec fn http_response_text() -> Seq<char> {
    "HTTP/1.1 200 OK\r\nServer: nginx/1.18.0 (Ubuntu)\r\nDate: Thu, 01 Jan 2026 00:00:00 GMT\r\nContent-Type: text/html\r\nContent-Length: 0\r\nConnection: close\r\n\r\n"@
}

/// The bytes the HTTP persona answers any request line with: a 200 OK
/// from nginx/1.18.0 with an empty body.
pub fn http_response() -> (b: &'static [u8])
    ensures
        b@ == encode_utf8(http_response_text()),
{
    "HTTP/1.1 200 OK\r\nServer: nginx/1.18.0 (Ubuntu)\r\nDate: Thu, 01 Jan 2026 00:00:00 GMT\r\nContent-Type: text/html\r\nContent-Length: 0\r\nConnection: close\r\n\r\n".as_bytes()
}

// ── Redis ─────────────────────────────────────────────────────────────────────

/// The Redis persona's answer to one command line. No command ends the
/// session: the client closes it, or it times out.
#[derive(Clone, Copy, Debug, PartialEq, Eq, Structural)]
pub enum RedisReply {
    /// `+PONG`, to `PING` and `PING <message>`.
    Pong,
    /// `-ERR unknown command`, to anything else.
    UnknownCommand,
}

/// The uppercase form of a string, as `str::to_uppercase` gives it (the
/// Unicode uppercase mapping of each character).
pub uninterp spec fn upper_case(s: Seq<char>) -> Seq<char>;

/// Calls `str::to_uppercase`; its result is named `upper_case`.
#[verifier::external_body]
fn to_uppercase(s: &str) -> (u: String)
    ensures
        u@ == upper_case(s@),
{
    s.to_uppercase()
}

pub open spec fn ping_word() -> Seq<char> {
    seq!['P', 'I', 'N', 'G']
}

pub open spec fn ping_prefix() -> Seq<char> {
    seq!['P', 'I', 'N', 'G', ' ']
}

/// The reply to a normalized (trimmed, uppercased) command.
pub open spec fn reply_to_command(cmd: Seq<char>) -> RedisReply {
    if cmd == ping_word() || (cmd.len() >= 5 && cmd.subrange(0, 5) == ping_prefix()) {
        RedisReply::Pong
    } else {
        RedisReply::UnknownCommand
    }
}

/// The reply to a normalized command: `PING` or `PING ...` gets `+PONG`,
/// anything else is an unknown command.
pub fn redis_reply_for_command(cmd: &[char]) -> (r: RedisReply)
    ensures
        r == reply_to_command(cmd@),
{
    let ping = ['P', 'I', 'N', 'G'];
    let ping_sp = ['P', 'I', 'N', 'G', ' '];
    assert(ping@ == ping_word());
    assert(ping_sp@ == ping_prefix());
    if chars_equal(cmd, &ping) || has_prefix_at(cmd, 0, &ping_sp) {
        RedisReply::Pong
    } else {
        RedisReply::UnknownCommand
    }
}

/// The reply to a line read from a Redis client: the line is trimmed of
/// white space and uppercased, then answered by `redis_reply_for_command`.
pub fn redis_reply(line: &str) -> (r: RedisReply)
    ensures
        r == reply_to_command(upper_case(trimmed(line@))),
{
    let chars = chars_of(line);
    let t = trim_chars(&chars);
    let ts = string_of(&t);
    let up = to_uppercase(ts.as_str());
    let cmd = chars_of(up.as_str());
    redis_reply_for_command(&cmd)
}

/// The text of each Redis reply.
pub open spec fn reply_text(r: RedisReply) -> Seq<char> {
    match r {
        RedisReply::Pong => "+PONG\r\n"@,
        RedisReply::UnknownCommand => "-ERR unknown command\r\n"@,
    }
}

impl RedisReply {
    /// The bytes sent for the reply.
    pub fn bytes(self) -> (b: &'static [u8])
        ensures
            b@ == encode_utf8(reply_text(self)),
    {
        let s: &'static str = match self {
            RedisReply::Pong => "+PONG\r\n",
            RedisReply::UnknownCommand => "-ERR unknown command\r\n",
        };
        s.as_bytes()
    }
}

// ── Raw echo ─────────────────────────────────────────────────────────────────

/// `s` without its trailing carriage returns and line feeds.
pub open spec fn strip_line_end(s: Seq<char>) -> Seq<char>
    decreases s.len(),
{
    if s.len() > 0 && (s.last() == '\r' || s.last() == '\n') {
        strip_line_end(s.drop_last())
    } else {
        s
    }
}

/// The payload of a line from a raw client: the line without its trailing
/// `\r` and `\n` characters.
pub fn echo_payload(line: &str) -> (p: String)
    ensures
        p@ == strip_line_end(line@),
{
    let v = chars_of(line);
    let mut j: usize = v.len();
    assert(v@.subrange(0, v@.len() as int) =~= v@);
    while j > 0 && (v[j - 1] == '\r' || v[j - 1] == '\n')
        invariant
            j <= v@.len(),
            strip_line_end(v@) == strip_line_end(v@.subrange(0, j as int)),
        decreases j,
    {
        proof {
            assert(v@.subrange(0, j as int).drop_last() =~= v@.subrange(0, j - 1));
        }
        j = j - 1;
    }
    proof {
        let t = v@.subrange(0, j as int);
        assert(t.len() == 0 || !(t.last() == '\r' || t.last() == '\n'));
        assert(strip_line_end(t) == t);
    }
    let mut out = String::new();
    let mut k: usize = 0;
    while k < j
        invariant
            j <= v@.len(),
            k <= j,
            out@ == v@.subrange(0, k as int),
        decreases j - k,
    {
        out.push(v[k]);
        k = k + 1;
        assert(out@ =~= v@.subrange(0, k as int));
    }
    proof {
        assert(v@.subrange(0, v@.len() as int) =~= v@);
    }
    out
}

/// What the raw persona sends back for a line: its payload followed by `\r\n`.
pub fn echo_reply(line: &str) -> (r: String)
    ensures
        r@ == strip_line_end(line@) + seq!['\r', '\n'],
{
    let mut r = echo_payload(line);
    r.push('\r');
    r.push('\n');
    r
}


/// The HTTP persona's answer is a complete 200 response with an empty body:
/// these status and header lines, each ended by CR LF, then the blank line
/// and nothing after it, as its `Content-Length: 0` declares.
pub proof fn law_http_response_is_complete()
    ensures
        http_response_text() == "HTTP/1.1 200 OK\r\n"@ + "Server: nginx/1.18.0 (Ubuntu)\r\n"@
            + "Date: Thu, 01 Jan 2026 00:00:00 GMT\r\n"@ + "Content-Type: text/html\r\n"@
            + "Content-Length: 0\r\n"@ + "Connection: close\r\n"@ + "\r\n"@,
{
    reveal_strlit("HTTP/1.1 200 OK\r\nServer: nginx/1.18.0 (Ubuntu)\r\nDate: Thu, 01 Jan 2026 00:00:00 GMT\r\nContent-Type: text/html\r\nContent-Length: 0\r\nConnection: close\r\n\r\n");
    reveal_strlit("HTTP/1.1 200 OK\r\n");
    reveal_strlit("Server: nginx/1.18.0 (Ubuntu)\r\n");
    reveal_strlit("Date: Thu, 01 Jan 2026 00:00:00 GMT\r\n");
    reveal_strlit("Content-Type: text/html\r\n");
    reveal_strlit("Content-Length: 0\r\n");
    reveal_strlit("Connection: close\r\n");
    reveal_strlit("\r\n");
    assert(http_response_text() =~= "HTTP/1.1 200 OK\r\n"@ + "Server: nginx/1.18.0 (Ubuntu)\r\n"@
        + "Date: Thu, 01 Jan 2026 00:00:00 GMT\r\n"@ + "Content-Type: text/html\r\n"@
        + "Content-Length: 0\r\n"@ + "Connection: close\r\n"@ + "\r\n"@);
}
} // verus!
