//! A reconnaissance asset library: a deduplicating store of domains,
//! subdomains, IP addresses and their links, a filter language compiled
//! to SQL-style predicates, a module registry, and the line-oriented
//! event protocol that isolates a running module in a child process.
use vstd::prelude::*;

pub mod chars;
pub mod filter;
pub mod protocol;
pub mod registry;
pub mod store;

verus! {

} // verus!
