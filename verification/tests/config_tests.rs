//! Tests of configuration merge and validation.

use echotrap::config::{CliConfig, CliGiven, FileConfig, LogPathCheck};
use echotrap::persona::Persona;

fn base() -> CliConfig {
    CliConfig {
        port: 9000,
        threshold: 5,
        window: 10,
        log: "./echotrap.log".to_string(),
        dashboard_port: 8081,
        config: None,
        persona: Persona::Ssh,
        max_connections: 10000,
    }
}

fn none_given() -> CliGiven {
    CliGiven {
        port: false,
        threshold: false,
        window: false,
        log: false,
        dashboard_port: false,
        persona: false,
        max_connections: false,
    }
}

#[test]
fn default_config_is_valid() {
    assert!(base().validate(&LogPathCheck::Writable).is_ok());
}

#[test]
fn all_problems_are_reported_in_order() {
    let mut c = base();
    c.port = 80;
    c.dashboard_port = 40000;
    c.threshold = 0;
    c.window = 4000;
    c.max_connections = 0;
    let e = c.validate(&LogPathCheck::ParentMissing("/nope".to_string())).unwrap_err();
    assert_eq!(
        e.message(),
        "port 80 is in the privileged range (<1024) — choose a port ≥1024\n\
         dashboard-port 40000 is in the Linux ephemeral range (32768–60999) — choose a port outside this range\n\
         threshold must be at least 1\n\
         window 4000s exceeds maximum of 3600s (1 hour)\n\
         max-connections must be at least 1\n\
         log path parent directory '/nope' does not exist"
    );
}

#[test]
fn equal_ports_and_large_threshold() {
    let mut c = base();
    c.dashboard_port = 9000;
    c.threshold = 1001;
    c.window = 0;
    let e = c.validate(&LogPathCheck::NotWritable("denied".to_string())).unwrap_err();
    assert_eq!(
        e.message(),
        "port (9000) and dashboard-port (9000) must be different\n\
         threshold 1001 is unreasonably large (max 1000)\n\
         window must be at least 1 second\n\
         log path './echotrap.log' is not writable: denied"
    );
}

#[test]
fn boundary_values_are_valid() {
    let mut c = base();
    c.port = 1024;
    c.dashboard_port = 61000;
    c.threshold = 1000;
    c.window = 3600;
    assert!(c.validate(&LogPathCheck::Writable).is_ok());
    c.port = 32767;
    c.dashboard_port = 65535;
    c.threshold = 1;
    c.window = 1;
    assert!(c.validate(&LogPathCheck::Writable).is_ok());
    c.port = 60999;
    assert!(c.validate(&LogPathCheck::Writable).is_err());
}

#[test]
fn file_settings_fill_in_but_command_line_wins() {
    let file = FileConfig {
        port: Some(9100),
        threshold: Some(3),
        window: None,
        log: Some("/tmp/x.log".to_string()),
        dashboard_port: None,
        persona: Some(Persona::Http),
        max_connections: Some(50),
    };
    let mut given = none_given();
    given.port = true;
    let m = base().merged(Some(file), given);
    assert_eq!(m.port, 9000);
    assert_eq!(m.threshold, 3);
    assert_eq!(m.window, 10);
    assert_eq!(m.log, "/tmp/x.log");
    assert_eq!(m.dashboard_port, 8081);
    assert_eq!(m.persona, Persona::Http);
    assert_eq!(m.max_connections, 50);
    let same = base().merged(None, none_given());
    assert_eq!(same.port, 9000);
    assert_eq!(same.log, "./echotrap.log");
}
