//! EchoTrap: the decision logic of a TCP honeypot that resists scanner
//! fingerprinting, with its contracts.
use vstd::prelude::*;
use vstd::std_specs::convert::FromSpecImpl;

pub mod clock;
pub mod config;
pub mod detector;
pub mod display;
pub mod error;
pub mod metrics;
pub mod migration;
pub mod network;
pub mod persona;
pub mod personas;
pub mod redirect;
pub mod text;

use crate::config::{port_problems, texts, validate_port};
use crate::persona::Persona;

verus! {

/// Persona alias for test use — mirrors `persona::Persona`.
#[derive(Clone, Copy, Debug, PartialEq, Eq, Structural)]
pub enum TestPersona {
    Ssh,
    Http,
    Redis,
    Raw,
}

/// The persona a test persona stands for.
pub open spec fn persona_of(p: TestPersona) -> Persona {
    match p {
        TestPersona::Ssh => Persona::Ssh,
        TestPersona::Http => Persona::Http,
        TestPersona::Redis => Persona::Redis,
        TestPersona::Raw => Persona::Raw,
    }
}

impl From<TestPersona> for Persona {
    fn from(p: TestPersona) -> (r: Self) {
        match p {
            TestPersona::Ssh => Persona::Ssh,
            TestPersona::Http => Persona::Http,
            TestPersona::Redis => Persona::Redis,
            TestPersona::Raw => Persona::Raw,
        }
    }
}

impl FromSpecImpl<TestPersona> for Persona {
    open spec fn obeys_from_spec() -> bool {
        true
    }

    open spec fn from_spec(p: TestPersona) -> Persona {
        persona_of(p)
    }
}

/// Checks a port as configuration validation does: appends one message
/// naming `name` when the port is privileged (below 1024) or in the Linux
/// ephemeral range (32768–60999), nothing otherwise.
pub fn config_validate_port_range(port: u16, name: &str, errors: &mut Vec<String>)
    ensures
        texts(final(errors)@) == texts(old(errors)@) + port_problems(port, name@),
{
    validate_port(port, name, errors)
}

} // verus!
