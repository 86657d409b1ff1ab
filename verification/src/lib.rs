//! A host inventory scanner: it reads what a machine is (host name, kernel,
//! architecture, operating system) and which packages its package manager
//! has installed.
use vstd::prelude::*;

pub mod alpm;
pub mod decimal;
pub mod host;
pub mod os;
pub mod package;
pub mod pacman;
pub mod runner;
pub mod text;

verus! {

/// `std::io::Error`, declared so that verified signatures can carry the error
/// of the scanner's reads. Trusted: Verus sees nothing inside a value of it,
/// and nothing is claimed about one.
#[verifier::external_type_specification]
#[verifier::external_body]
pub struct ExIoError(std::io::Error);

} // verus!
