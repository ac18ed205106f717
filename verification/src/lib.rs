//! Incremental parsing of ABNF grammars from a growing byte buffer.
//!
//! A rule is tried on whatever input has arrived so far. It either matches
//! and consumes its bytes, asks for more input, or rejects the input; in
//! the latter two cases the buffer is left exactly as it was found, so that
//! a rule can be tried again after more bytes have been appended.
//!
//! * `outcome` has the three-way result of a rule and the predicates that
//!   relate a rule to its model.
//! * `buffer` says what is taken for granted of the buffers of `bytes`.
//! * `grammar` has the models of the primitive rules.
//! * `parse` has the token that advances over a buffer, the functions that
//!   apply token rules to a buffer, and the combinators of rules.
//! * `core_rules` has the core rules of RFC 5234.
//! * `number` has the decoders of decimal and hexadecimal numbers.
//! * `ipaddr` has the rules for IPv4 and IPv6 addresses.

pub mod buffer;
pub mod core_rules;
pub mod grammar;
pub mod ipaddr;
pub mod number;
pub mod outcome;
pub mod parse;

pub use outcome::MatchOutcome;
