//! Summarises a set of IPv4 prefixes into at most a given number of entries.
//!
//! `cidr` reads and renders prefixes (`a.b.c.d/n`); `tree` holds them in a
//! binary trie over address bits, merges sibling blocks, and collapses the
//! cheapest blocks until few enough entries remain.

pub mod cidr;
pub mod tree;
