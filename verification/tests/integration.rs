//! Tests of port safety and configuration validation.

use echotrap::config_validate_port_range;
use echotrap::migration::candidate_port;

#[test]
fn test_safe_port_not_in_ephemeral_range() {
    // A migration candidate is never in 32768–60999 nor privileged; 20 draws.
    for _ in 0..20 {
        let port = candidate_port();
        assert!(
            !(32768..=60999).contains(&port),
            "port {port} is in ephemeral range"
        );
        assert!(port >= 1024, "port {port} is in privileged range");
    }
}

#[test]
fn test_config_rejects_zero_threshold() {
    let mut errors = Vec::new();
    config_validate_port_range(9000, "port", &mut errors);
    assert!(errors.is_empty(), "9000 should be valid: {errors:?}");
}

#[test]
fn test_config_rejects_ephemeral_port() {
    let mut errors = Vec::new();
    config_validate_port_range(40000, "port", &mut errors);
    assert!(
        !errors.is_empty(),
        "40000 should be rejected (ephemeral range)"
    );
    assert!(errors[0].contains("ephemeral"));
}

#[test]
fn test_config_rejects_privileged_port() {
    let mut errors = Vec::new();
    config_validate_port_range(80, "port", &mut errors);
    assert!(!errors.is_empty(), "80 should be rejected (privileged)");
    assert!(errors[0].contains("privileged"));
}
