//! The protocol personas the honeypot can wear: banners, timing jitter and
//! socket option profiles.
use vstd::prelude::*;
use vstd::utf8::encode_utf8;

verus! {

/// Available protocol personas.
#[derive(Clone, Copy, Debug, PartialEq, Eq, Structural)]
pub enum Persona {
    /// OpenSSH 8.9p1 banner — most common on Ubuntu 22.04 servers
    Ssh,
    /// nginx/1.18.0 HTTP server — responds to any request with 200 OK
    Http,
    /// Redis 7.x — PONG on connect, ERR on commands
    Redis,
    /// Raw echo — plain line echo, useful for testing
    Raw,
}

/// The banner a persona sends first.
pub open spec fn banner_text(p: Persona) -> Seq<char> {
    match p {
        Persona::Ssh => "SSH-2.0-OpenSSH_8.9p1 Ubuntu-3ubuntu0.6\r\n"@,
        Persona::Http => ""@,
        Persona::Redis => "+PONG\r\n"@,
        Persona::Raw => "Welcome to EchoTrap Service v1.2\r\n"@,
    }
}

/// The persona's name as the command line and the logs write it.
pub open spec fn persona_name(p: Persona) -> Seq<char> {
    match p {
        Persona::Ssh => "ssh"@,
        Persona::Http => "http"@,
        Persona::Redis => "redis"@,
        Persona::Raw => "raw"@,
    }
}

/// The range, in milliseconds, of the delay before a persona answers.
pub open spec fn jitter_range(p: Persona) -> (u64, u64) {
    match p {
        Persona::Ssh => (20, 150),
        Persona::Http => (5, 80),
        Persona::Redis => (1, 10),
        Persona::Raw => (0, 5),
    }
}

/// TCP keepalive timing: idle time before the first probe and the interval
/// between probes, in seconds.
#[derive(Clone, Copy, Debug, PartialEq, Eq, Structural)]
pub struct KeepaliveParams {
    pub idle_secs: u64,
    pub interval_secs: u64,
}

/// The socket options that make a listener look like the real service.
#[derive(Clone, Copy, Debug, PartialEq, Eq, Structural)]
pub struct SocketProfile {
    /// `SO_RCVBUF`, when set.
    pub recv_buffer: Option<usize>,
    /// `SO_KEEPALIVE`, when set.
    pub keepalive: Option<bool>,
    /// TCP keepalive idle time and probe interval in seconds, when set.
    pub keepalive_params: Option<KeepaliveParams>,
    /// `TCP_NODELAY`.
    pub nodelay: bool,
}

/// The socket profile of each persona, after Ubuntu 22.04 server defaults.
pub open spec fn profile_of(p: Persona) -> SocketProfile {
    match p {
        Persona::Ssh => SocketProfile {
            recv_buffer: Some(131072usize),
            keepalive: Some(true),
            keepalive_params: Some(KeepaliveParams { idle_secs: 120, interval_secs: 10 }),
            nodelay: false,
        },
        Persona::Http => SocketProfile {
            recv_buffer: Some(65536usize),
            keepalive: Some(false),
            keepalive_params: None,
            nodelay: true,
        },
        Persona::Redis => SocketProfile {
            recv_buffer: Some(65536usize),
            keepalive: Some(true),
            keepalive_params: None,
            nodelay: true,
        },
        Persona::Raw => SocketProfile {
            recv_buffer: None,
            keepalive: None,
            keepalive_params: None,
            nodelay: true,
        },
    }
}

impl Persona {
    /// The banner as text.
    pub fn banner_str(self) -> (s: &'static str)
        ensures
            s@ == banner_text(self),
    {
        match self {
            Persona::Ssh => "SSH-2.0-OpenSSH_8.9p1 Ubuntu-3ubuntu0.6\r\n",
            Persona::Http => "",
            Persona::Redis => "+PONG\r\n",
            Persona::Raw => "Welcome to EchoTrap Service v1.2\r\n",
        }
    }

    /// The banner as the bytes sent on the wire (its UTF-8 encoding).
    pub fn banner(self) -> (b: &'static [u8])
        ensures
            b@ == encode_utf8(banner_text(self)),
    {
        self.banner_str().as_bytes()
    }

    /// The minimum and maximum answer delay in milliseconds.
    pub fn jitter_ms(self) -> (r: (u64, u64))
        ensures
            r == jitter_range(self),
            r.0 <= r.1,
    {
        match self {
            Persona::Ssh => (20, 150),
            Persona::Http => (5, 80),
            Persona::Redis => (1, 10),
            Persona::Raw => (0, 5),
        }
    }

    /// The persona's name ("ssh", "http", "redis" or "raw").
    pub fn name(self) -> (s: &'static str)
        ensures
            s@ == persona_name(self),
    {
        match self {
            Persona::Ssh => "ssh",
            Persona::Http => "http",
            Persona::Redis => "redis",
            Persona::Raw => "raw",
        }
    }

    /// The socket options a listener for this persona gets.
    pub fn socket_profile(self) -> (p: SocketProfile)
        ensures
            p == profile_of(self),
    {
        match self {
            Persona::Ssh => SocketProfile {
                recv_buffer: Some(131072),
                keepalive: Some(true),
                keepalive_params: Some(KeepaliveParams { idle_secs: 120, interval_secs: 10 }),
                nodelay: false,
            },
            Persona::Http => SocketProfile {
                recv_buffer: Some(65536),
                keepalive: Some(false),
                keepalive_params: None,
                nodelay: true,
            },
            Persona::Redis => SocketProfile {
                recv_buffer: Some(65536),
                keepalive: Some(true),
                keepalive_params: None,
                nodelay: true,
            },
            Persona::Raw => SocketProfile {
                recv_buffer: None,
                keepalive: None,
                keepalive_params: None,
                nodelay: true,
            },
        }
    }
}


/// The socket profile of each persona: SSH keeps a 128 KiB receive buffer
/// and keepalive probes after 120 s idle every 10 s, with Nagle on; HTTP a
/// 64 KiB buffer, keepalive off and no Nagle; Redis a 64 KiB buffer,
/// keepalive on and no Nagle; the raw echo only turns Nagle off.
pub proof fn law_socket_profiles()
    ensures
        profile_of(Persona::Ssh).recv_buffer == Some(131072usize),
        profile_of(Persona::Ssh).keepalive == Some(true),
        profile_of(Persona::Ssh).keepalive_params == Some(KeepaliveParams { idle_secs: 120, interval_secs: 10 }),
        !profile_of(Persona::Ssh).nodelay,
        profile_of(Persona::Http).recv_buffer == Some(65536usize),
        profile_of(Persona::Http).keepalive == Some(false),
        profile_of(Persona::Http).keepalive_params is None,
        profile_of(Persona::Http).nodelay,
        profile_of(Persona::Redis).recv_buffer == Some(65536usize),
        profile_of(Persona::Redis).keepalive == Some(true),
        profile_of(Persona::Redis).keepalive_params is None,
        profile_of(Persona::Redis).nodelay,
        profile_of(Persona::Raw).recv_buffer is None,
        profile_of(Persona::Raw).keepalive is None,
        profile_of(Persona::Raw).keepalive_params is None,
        profile_of(Persona::Raw).nodelay,
        forall|p: Persona| p != Persona::Ssh ==> #[trigger] profile_of(p).nodelay,
{
}
} // verus!
