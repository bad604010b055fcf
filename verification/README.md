# EchoTrap

A TCP honeypot that resists Masscan and ZMap fingerprinting: it wears a
protocol persona (SSH, HTTP, Redis or raw echo), answers with per-protocol
timing jitter and socket options, detects scans with a sliding window per
source IP, and moves to a fresh safe port when one is found, leaving a decoy
(or an nftables REDIRECT) on the old one.

## Layout

- `src/` — the library, verified with Verus:
  - `detector.rs` — per-IP sliding-window detection over an `lru` cache
    bounded at 10 000 IPs, with the laws that over a run of connections the
    verdict is exactly "enough hits from this IP inside the window", that the
    number of tracked IPs is the number of distinct IPs up to the bound, that
    a purge never changes a verdict and that histories stay bounded;
  - `migration.rs` — safe port selection (never privileged, never in the
    Linux ephemeral range), the bounded port search, the migration history;
  - `network.rs` — the listener's decisions: connection bookkeeping, the
    migration cooldown (with the law that over a run of requests migrations
    are counted one by one, never closer than the cooldown and always to
    another port), the switch once the new listener is bound, the shutdown
    drain;
  - `config.rs` — merge of command line and config file, validation with
    its messages;
  - `persona.rs`, `personas.rs` — banners, jitter, socket profiles, the
    HTTP, Redis and raw echo answers;
  - `metrics.rs` — counters and the `/metrics`, `/status` and Prometheus
    reports;
  - `display.rs` — ANSI highlighting of log messages and the styled
    terminal lines (`owo-colors`), and routing of log lines;
  - `redirect.rs` — the `nft` commands of a redirect and the order in which
    they run, with the fall-back to the decoy;
  - `text.rs`, `clock.rs`, `error.rs` — shared helpers and types.
- `app/` — the program: command line (`clap`), config file (`toml`),
  sockets (`tokio`, `socket2`), the dashboard (`axum`), logging (`tracing`).
- `tests/` — tests of the library.
