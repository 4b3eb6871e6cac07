//! Verified core of the flowdesk API.
use vstd::prelude::*;

pub mod accounts;
pub mod advisor;
pub mod auth;
pub mod cli;
pub mod dto;
pub mod error;
pub mod htf;
pub mod levels;
pub mod m1;
pub mod paper;
pub mod research;
pub mod routes;
pub mod text;
pub mod version;

verus! {

} // verus!
