//! Content hashing for lines and blocks.
//!
//! A line or a joined block of lines is mapped to a 64-bit digest; hash
//! equality is treated as content equality throughout the engine.  The digest
//! itself is computed by an outside cryptographic hash and is only named
//! here: every contract above it speaks of [`hash64_of`].

use vstd::prelude::*;
use crate::text::joined_view;

verus! {

/// The 64-bit content digest of a text: the first eight bytes of its BLAKE3
/// hash, read little-endian.  A function of the characters alone.
pub uninterp spec fn hash64_of(s: Seq<char>) -> u64;

/// Relies on `blake3::hash`, which returns a 32-byte digest that is a pure
/// function of the input bytes, and on `u64::from_le_bytes` over its first
/// eight bytes.
#[verifier::external_body]
fn blake3_hash64(s: &str) -> (r: u64)
    ensures
        r == hash64_of(s@),
{
    let h = blake3::hash(s.as_bytes());
    let mut buf = [0u8; 8];
    buf.copy_from_slice(&h.as_bytes()[..8]);
    u64::from_le_bytes(buf)
}

/// The 64-bit content hash of a single line.
pub fn hash_line(line: &str) -> (r: u64)
    ensures
        r == hash64_of(line@),
{
    blake3_hash64(line)
}

/// The 64-bit content hash of a block of lines, hashed as one text joined by
/// single newlines, so that a block hash never equals a line hash of other
/// content by construction alone.
pub fn hash_block(lines: &[&str]) -> (r: u64)
    ensures
        r == hash64_of(joined_view(lines@.map_values(|l: &str| l@))),
{
    let joined = crate::text::join_with_newlines(lines);
    blake3_hash64(joined.as_str())
}

} // verus!
