//! Tests of personas and their answers.

use echotrap::persona::{KeepaliveParams, Persona};
use echotrap::personas::{
    echo_payload, echo_reply, http_response, jitter_from_draw, pick_jitter, redis_reply,
    RedisReply,
};
use echotrap::TestPersona;

#[test]
fn banners_match_the_emulated_services() {
    assert_eq!(Persona::Ssh.banner_str(), "SSH-2.0-OpenSSH_8.9p1 Ubuntu-3ubuntu0.6\r\n");
    assert_eq!(Persona::Ssh.banner(), b"SSH-2.0-OpenSSH_8.9p1 Ubuntu-3ubuntu0.6\r\n");
    assert_eq!(Persona::Http.banner(), b"");
    assert_eq!(Persona::Redis.banner(), b"+PONG\r\n");
    assert_eq!(Persona::Raw.banner_str(), "Welcome to EchoTrap Service v1.2\r\n");
    assert!(Persona::Ssh.banner_str().starts_with("SSH-2.0-"));
}

#[test]
fn jitter_ranges_and_names() {
    assert_eq!(Persona::Ssh.jitter_ms(), (20, 150));
    assert_eq!(Persona::Http.jitter_ms(), (5, 80));
    assert_eq!(Persona::Redis.jitter_ms(), (1, 10));
    assert_eq!(Persona::Raw.jitter_ms(), (0, 5));
    assert_eq!(Persona::Ssh.name(), "ssh");
    assert_eq!(Persona::Http.name(), "http");
    assert_eq!(Persona::Redis.name(), "redis");
    assert_eq!(Persona::Raw.name(), "raw");
}

#[test]
fn jitter_from_draw_is_exact_and_in_range() {
    assert_eq!(jitter_from_draw(Persona::Ssh, 0), Some(20));
    assert_eq!(jitter_from_draw(Persona::Ssh, 130), Some(150));
    assert_eq!(jitter_from_draw(Persona::Ssh, 131), Some(20));
    assert_eq!(jitter_from_draw(Persona::Raw, 7), Some(1));
    for p in [Persona::Ssh, Persona::Http, Persona::Redis, Persona::Raw] {
        let (lo, hi) = p.jitter_ms();
        let d = pick_jitter(p).unwrap();
        assert!(lo <= d && d <= hi);
    }
}

#[test]
fn socket_profiles() {
    let ssh = Persona::Ssh.socket_profile();
    assert_eq!(ssh.recv_buffer, Some(131072));
    assert_eq!(ssh.keepalive, Some(true));
    assert_eq!(ssh.keepalive_params, Some(KeepaliveParams { idle_secs: 120, interval_secs: 10 }));
    assert!(!ssh.nodelay);
    let http = Persona::Http.socket_profile();
    assert_eq!(http.recv_buffer, Some(65536));
    assert_eq!(http.keepalive, Some(false));
    assert!(http.nodelay);
    let redis = Persona::Redis.socket_profile();
    assert_eq!(redis.keepalive, Some(true));
    let raw = Persona::Raw.socket_profile();
    assert_eq!(raw.recv_buffer, None);
    assert_eq!(raw.keepalive, None);
    assert!(raw.nodelay);
}

#[test]
fn test_persona_converts() {
    assert_eq!(Persona::from(TestPersona::Ssh), Persona::Ssh);
    assert_eq!(Persona::from(TestPersona::Http), Persona::Http);
    assert_eq!(Persona::from(TestPersona::Redis), Persona::Redis);
    assert_eq!(Persona::from(TestPersona::Raw), Persona::Raw);
}

#[test]
fn http_response_is_nginx_200() {
    let r = std::str::from_utf8(http_response()).unwrap();
    assert!(r.starts_with("HTTP/1.1 200 OK\r\n"));
    assert!(r.contains("Server: nginx/1.18.0 (Ubuntu)\r\n"));
    assert!(r.ends_with("Connection: close\r\n\r\n"));
}

#[test]
fn redis_replies() {
    assert_eq!(redis_reply("PING\r\n"), RedisReply::Pong);
    assert_eq!(redis_reply("ping\r\n"), RedisReply::Pong);
    assert_eq!(redis_reply("  Ping hello \n"), RedisReply::Pong);
    assert_eq!(redis_reply("PINGX\r\n"), RedisReply::UnknownCommand);
    assert_eq!(redis_reply("quit\r\n"), RedisReply::UnknownCommand);
    assert_eq!(redis_reply("QUIT now\r\n"), RedisReply::UnknownCommand);
    assert_eq!(redis_reply("GET key\r\n"), RedisReply::UnknownCommand);
    assert_eq!(redis_reply("\r\n"), RedisReply::UnknownCommand);
    assert_eq!(redis_reply("\u{3000}PING\u{a0}\r\n"), RedisReply::Pong);
    assert_eq!(redis_reply("\u{200b}PING\r\n"), RedisReply::UnknownCommand);
    assert_eq!(RedisReply::Pong.bytes(), b"+PONG\r\n");
    assert_eq!(RedisReply::UnknownCommand.bytes(), b"-ERR unknown command\r\n");
}

#[test]
fn raw_echo_strips_line_endings() {
    assert_eq!(echo_payload("hello\r\n"), "hello");
    assert_eq!(echo_payload("a\r\n\r\n"), "a");
    assert_eq!(echo_payload("  x  \n"), "  x  ");
    assert_eq!(echo_payload(""), "");
    assert_eq!(echo_reply("hello\n"), "hello\r\n");
    assert_eq!(echo_reply("\r\n"), "\r\n");
}
