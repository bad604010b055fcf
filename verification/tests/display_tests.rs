//! Tests of message styling and log routing.

use echotrap::display::{
    block_label_line, colorize_message, colorize_message_warn, detail_line, error_line, field_line,
    header_tagline, header_title, info_line, kv, ok_line, route_info, route_line, separator_line,
    warn_line, LineStyle, LogLevel,
};
use owo_colors::OwoColorize;

fn cyan_bold(s: &str) -> String {
    format!("\x1b[1m\x1b[36m{s}\x1b[39m\x1b[0m")
}
fn white(s: &str) -> String {
    format!("\x1b[37m{s}\x1b[39m")
}
fn yellow(s: &str) -> String {
    format!("\x1b[33m{s}\x1b[39m")
}
fn dimmed(s: &str) -> String {
    format!("\x1b[2m{s}\x1b[0m")
}

#[test]
fn addresses_ports_and_personas_are_highlighted() {
    let got = colorize_message("EchoTrap listening on 0.0.0.0:9000");
    let want = format!(
        "{} {} {} {}",
        white("EchoTrap"),
        white("listening"),
        white("on"),
        cyan_bold("0.0.0.0:9000")
    );
    assert_eq!(got, want);
    assert_eq!(colorize_message("moving to :21629"), format!("{} {} {}", white("moving"), white("to"), cyan_bold(":21629")));
    assert_eq!(colorize_message("[persona: ssh]"), format!("{} {}", white("[persona:"), cyan_bold("ssh]")));
    assert_eq!(colorize_message("from localhost:80,"), format!("{} {}", white("from"), cyan_bold("localhost:80,")));
}

#[test]
fn durations_are_highlighted() {
    assert_eq!(colorize_message("30s"), cyan_bold("30s"));
    assert_eq!(colorize_message("10s"), cyan_bold("10s"));
    assert_eq!(
        colorize_message("active on :9000 for 30s"),
        format!("{} {} {} {} {}", white("active"), white("on"), cyan_bold(":9000"), white("for"), cyan_bold("30s"))
    );
    assert_eq!(colorize_message("31ms"), cyan_bold("31ms"));
    assert_eq!(colorize_message("5m,"), cyan_bold("5m,"));
    assert_eq!(colorize_message("(2h)"), cyan_bold("(2h)"));
    assert_eq!(colorize_message_warn("30s"), cyan_bold("30s"));
    assert_eq!(colorize_message("30x"), white("30x"));
    assert_eq!(colorize_message("s"), white("s"));
    assert_eq!(colorize_message("30sec"), white("30sec"));
    assert_eq!(colorize_message("3h0s"), white("3h0s"));
}

#[test]
fn non_ports_stay_plain() {
    assert_eq!(colorize_message(":70000"), white(":70000"));
    assert_eq!(colorize_message("host:99"), white("host:99"));
    assert_eq!(colorize_message(":+80"), cyan_bold(":+80"));
    assert_eq!(colorize_message(":+"), white(":+"));
}

#[test]
fn key_value_pairs_are_split() {
    assert_eq!(
        colorize_message("latency=31ms"),
        format!("{}={}", dimmed("latency"), cyan_bold("31ms"))
    );
    assert_eq!(colorize_message("a=b=c"), format!("{}={}", dimmed("a"), cyan_bold("b=c")));
    assert_eq!(colorize_message("=x"), white("=x"));
    assert_eq!(colorize_message("k="), white("k="));
    assert_eq!(colorize_message("a.b=c"), white("a.b=c"));
}

#[test]
fn warnings_use_yellow_and_spaces_are_kept() {
    assert_eq!(colorize_message_warn("Scan suspected"), format!("{} {}", yellow("Scan"), yellow("suspected")));
    assert_eq!(colorize_message("a  b"), format!("{} {} {}", white("a"), white(""), white("b")));
    assert_eq!(colorize_message(""), "");
    assert_eq!(colorize_message("x "), format!("{} ", white("x")));
}

#[test]
fn kv_styles_key_and_value() {
    assert_eq!(kv("port", "9000"), format!("{}={}", dimmed("port"), cyan_bold("9000")));
}

#[test]
fn success_lines_are_recognized() {
    assert!(route_info("EchoTrap listening on 0.0.0.0:9000"));
    assert!(route_info("Migration complete — listening on :21629"));
    assert!(route_info("Dashboard listening on http://0.0.0.0:8081"));
    assert!(route_info("[DECOY] Decoy listener active on :9000 for 30s"));
    assert!(route_info("EchoTrap shut down cleanly. Goodbye."));
    assert!(!route_info("Spawning listener on 0.0.0.0:9000"));
    assert!(!route_info("EchoTrap"));
}

#[test]
fn log_lines_are_routed_by_level() {
    assert_eq!(route_line(LogLevel::Warn, "careful\n"), Some((LineStyle::Warn, "careful".to_string())));
    assert_eq!(route_line(LogLevel::Error, "boom"), Some((LineStyle::Error, "boom".to_string())));
    assert_eq!(
        route_line(LogLevel::Info, "Migration complete\n\n"),
        Some((LineStyle::Success, "Migration complete".to_string()))
    );
    assert_eq!(route_line(LogLevel::Info, "hello"), Some((LineStyle::Info, "hello".to_string())));
    assert_eq!(route_line(LogLevel::Debug, "EchoTrap shut down"), Some((LineStyle::Info, "EchoTrap shut down".to_string())));
    assert_eq!(route_line(LogLevel::Info, "\n"), None);
}

#[test]
fn terminal_lines_match_owo_colors() {
    let msg = "listening on :9000 for 30s";
    assert_eq!(ok_line(msg), format!("  {} {}", "✓".green().bold(), colorize_message(msg)));
    assert_eq!(info_line(msg), format!("  {} {}", "·".dimmed(), colorize_message(msg)));
    assert_eq!(warn_line(msg), format!("  {} {}", "!".yellow().bold(), colorize_message_warn(msg)));
    assert_eq!(error_line("bad"), format!("  {} {}", "⚡".red().bold(), "bad".red()));
    assert_eq!(detail_line("d"), format!("    {} {}", "·".dimmed(), "d".dimmed()));
    assert_eq!(block_label_line("b"), format!("  {}", "b".dimmed()));
    assert_eq!(field_line("port", "9000"), format!("  {:<12} {}", "port".dimmed(), "9000".cyan().bold()));
    assert_eq!(
        field_line("a-very-long-label", "v"),
        format!("  {:<12} {}", "a-very-long-label".dimmed(), "v".cyan().bold())
    );
    assert_eq!(separator_line(), format!("  {}", "─".repeat(48).dimmed()));
    assert_eq!(header_title("0.2.0"), format!("  {}", "[EchoTrap v0.2.0]".cyan().bold()));
    assert_eq!(header_tagline(), format!("  {}", "self-rebuilding TCP honeypot".dimmed()));
    assert_eq!(error_line("bad"), "  \u{1b}[1m\u{1b}[31m⚡\u{1b}[39m\u{1b}[0m \u{1b}[31mbad\u{1b}[39m");
}
