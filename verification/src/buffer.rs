//! The byte buffers that the rules work on.
//!
//! Input arrives in a `bytes::BytesMut`, and a matched span leaves as a
//! `bytes::Bytes`. Both are opaque to the verifier. This module names what
//! they hold and states, without proof, what the few methods that the
//! rules call do to it.

use bytes::Bytes;
use bytes::BytesMut;
use vstd::prelude::*;

verus! {

/// `bytes::BytesMut`, the buffer that input arrives in. Nothing is known
/// of what is inside a value but what the functions below say.
#[verifier::external_type_specification]
#[verifier::external_body]
pub struct ExBytesMut(BytesMut);

/// `bytes::Bytes`, the buffer that a matched span is handed out in.
/// Nothing is known of what is inside a value but what the functions
/// below say.
#[verifier::external_type_specification]
#[verifier::external_body]
pub struct ExBytes(Bytes);

/// The bytes that a `BytesMut` holds, first to last.
pub uninterp spec fn buffered(buf: &BytesMut) -> Seq<u8>;

/// The bytes that a `Bytes` holds, first to last.
pub uninterp spec fn frozen(span: &Bytes) -> Seq<u8>;

/// `BytesMut::len` gives the number of bytes held.
pub assume_specification[ BytesMut::len ](buf: &BytesMut) -> (n: usize)
    ensures
        n == buffered(buf).len(),
;

/// `BytesMut::split_to` hands out the first `at` bytes and keeps the rest.
/// It panics when `at` is beyond the length, which `requires` rules out.
pub assume_specification[ BytesMut::split_to ](buf: &mut BytesMut, at: usize) -> (head: BytesMut)
    requires
        at <= buffered(old(buf)).len(),
    ensures
        buffered(&head) == buffered(old(buf)).take(at as int),
        buffered(final(buf)) == buffered(old(buf)).skip(at as int),
;

/// `BytesMut::freeze` turns the buffer into a `Bytes` of the same content.
pub assume_specification[ BytesMut::freeze ](buf: BytesMut) -> (span: Bytes)
    ensures
        frozen(&span) == buffered(&buf),
;

/// `BytesMut::clone` copies the content into a buffer of its own.
pub assume_specification[ <BytesMut as Clone>::clone ](buf: &BytesMut) -> (copy: BytesMut)
    ensures
        buffered(&copy) == buffered(buf),
;

/// Dereferencing a `BytesMut` gives its content as a slice.
pub assume_specification[ <BytesMut as core::ops::Deref>::deref ](buf: &BytesMut) -> (s: &[u8])
    ensures
        s@ == buffered(buf),
;

} // verus!
