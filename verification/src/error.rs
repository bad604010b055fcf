//! Structured error types. Their messages are given by the application,
//! which owns the I/O they come from.
use vstd::prelude::*;

verus! {

/// `std::io::Error`, carried through opaquely as the source of an error.
#[verifier::external_type_specification]
#[verifier::external_body]
pub struct ExIoError(std::io::Error);

/// Errors that can occur when starting or running the dashboard.
#[derive(Debug)]
pub enum DashboardError {
    /// Binding the dashboard's address failed.
    Bind { addr: String, source: std::io::Error },
    /// The server stopped with an error.
    Serve(std::io::Error),
}

/// Errors that can occur during port migration.
#[derive(Debug)]
pub enum MigrationError {
    /// No candidate port could be bound in the allowed number of attempts.
    NoFreePort { attempts: usize, exclude: u16 },
    /// Binding the new port failed.
    BindFailed { port: u16, source: std::io::Error },
}

/// Errors from socket option configuration.
#[derive(Debug)]
pub enum SockoptError {
    /// Creating or configuring the socket failed.
    Create(std::io::Error),
    /// Binding or listening on the address failed.
    Bind { addr: String, source: std::io::Error },
    /// Handing the socket to the async runtime failed.
    Convert(std::io::Error),
}

} // verus!
