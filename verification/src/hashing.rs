//! Identity hashing for events.
//!
//! The identity hash of an event is a deterministic function of its type tag
//! and payload alone: both are fed to a `DefaultHasher` as a fixed sequence of
//! byte-slice writes, so the resulting value is pinned down by
//! `DefaultHasher::spec_finish` over that write sequence.

use vstd::prelude::*;
use vstd::std_specs::hash::DefaultHasherAdditionalSpecFns;
use std::collections::hash_map::DefaultHasher;
use std::hash::Hasher;

verus! {

/// The four little-endian bytes of a character's scalar value.
pub open spec fn char_le_bytes(c: char) -> Seq<u8> {
    u32_le_bytes(c as u32)
}

/// The four little-endian bytes of a 32-bit value.
pub open spec fn u32_le_bytes(x: u32) -> Seq<u8> {
    seq![
        (x & 0xff) as u8,
        ((x >> 8) & 0xff) as u8,
        ((x >> 16) & 0xff) as u8,
        ((x >> 24) & 0xff) as u8,
    ]
}

/// The two little-endian bytes of a 16-bit value.
pub open spec fn u16_le_bytes(x: u16) -> Seq<u8> {
    seq![(x & 0xff) as u8, ((x >> 8) & 0xff) as u8]
}

/// The eight little-endian bytes of a 64-bit value.
pub open spec fn u64_le_bytes(x: u64) -> Seq<u8> {
    seq![
        (x & 0xff) as u8,
        ((x >> 8) & 0xff) as u8,
        ((x >> 16) & 0xff) as u8,
        ((x >> 24) & 0xff) as u8,
        ((x >> 32) & 0xff) as u8,
        ((x >> 40) & 0xff) as u8,
        ((x >> 48) & 0xff) as u8,
        ((x >> 56) & 0xff) as u8,
    ]
}

/// The write sequence an event's identity hash is computed over: one write
/// per character of the type tag, then one write holding the whole payload.
pub open spec fn event_writes(type_: Seq<char>, data: Seq<u8>) -> Seq<Seq<u8>> {
    Seq::new(type_.len(), |i: int| char_le_bytes(type_[i])).push(data)
}

/// The identity hash of an event with the given type tag and payload. It
/// depends on those two fields alone, never on the event's chain position.
pub open spec fn event_hash(type_: Seq<char>, data: Seq<u8>) -> u64 {
    DefaultHasher::spec_finish(event_writes(type_, data))
}

/// Relies on `str::chars` and `Iterator::collect`: the characters of a
/// string, in order, as a vector.
#[verifier::external_body]
pub fn string_to_chars(s: &str) -> (r: Vec<char>)
    ensures
        r@ == s@,
{
    s.chars().collect()
}

/// Relies on `Iterator::collect` for `String`: rebuilding a string from its
/// characters, in order.
#[verifier::external_body]
pub fn chars_to_string(v: &Vec<char>) -> (r: String)
    ensures
        r@ == v@,
{
    v.iter().collect()
}

/// Feeds one bare byte to the hasher as a one-byte write.
pub fn write_byte(h: &mut DefaultHasher, b: u8)
    ensures
        final(h)@ == old(h)@.push(seq![b]),
{
    let bytes: Vec<u8> = vec![b];
    assert(bytes@ =~= seq![b]);
    h.write(bytes.as_slice());
}

/// Feeds one 16-bit value to the hasher as two little-endian bytes.
pub fn write_u16_le(h: &mut DefaultHasher, x: u16)
    ensures
        final(h)@ == old(h)@.push(u16_le_bytes(x)),
{
    let bytes: Vec<u8> = vec![(x & 0xff) as u8, ((x >> 8) & 0xff) as u8];
    assert(bytes@ =~= u16_le_bytes(x));
    h.write(bytes.as_slice());
}

/// Feeds one 32-bit value to the hasher as four little-endian bytes.
pub fn write_u32_le(h: &mut DefaultHasher, x: u32)
    ensures
        final(h)@ == old(h)@.push(u32_le_bytes(x)),
{
    let bytes: Vec<u8> = vec![
        (x & 0xff) as u8,
        ((x >> 8) & 0xff) as u8,
        ((x >> 16) & 0xff) as u8,
        ((x >> 24) & 0xff) as u8,
    ];
    assert(bytes@ =~= u32_le_bytes(x));
    h.write(bytes.as_slice());
}

/// Feeds one 64-bit value to the hasher as eight little-endian bytes.
pub fn write_u64_le(h: &mut DefaultHasher, x: u64)
    ensures
        final(h)@ == old(h)@.push(u64_le_bytes(x)),
{
    let bytes: Vec<u8> = vec![
        (x & 0xff) as u8,
        ((x >> 8) & 0xff) as u8,
        ((x >> 16) & 0xff) as u8,
        ((x >> 24) & 0xff) as u8,
        ((x >> 32) & 0xff) as u8,
        ((x >> 40) & 0xff) as u8,
        ((x >> 48) & 0xff) as u8,
        ((x >> 56) & 0xff) as u8,
    ];
    assert(bytes@ =~= u64_le_bytes(x));
    h.write(bytes.as_slice());
}

/// Feeds each character of `chars` to the hasher as one four-byte write.
pub fn write_chars(h: &mut DefaultHasher, chars: &Vec<char>)
    ensures
        final(h)@ == old(h)@ + Seq::new(chars@.len(), |i: int| char_le_bytes(chars@[i])),
{
    let ghost char_writes = Seq::new(chars@.len(), |i: int| char_le_bytes(chars@[i]));
    let mut i: usize = 0;
    while i < chars.len()
        invariant
            i <= chars@.len(),
            char_writes == Seq::new(chars@.len(), |j: int| char_le_bytes(chars@[j])),
            h@ == old(h)@ + char_writes.take(i as int),
        decreases chars@.len() - i,
    {
        let c = chars[i];
        write_u32_le(h, c as u32);
        assert(char_writes.take(i + 1) =~= char_writes.take(i as int).push(char_le_bytes(c)));
        i = i + 1;
    }
    assert(char_writes.take(chars@.len() as int) =~= char_writes);
}

/// Computes the identity hash of an event's contents: its type tag and its
/// payload, exactly as `event_hash` states.
pub fn hash_event_contents(type_: &String, data: &Vec<u8>) -> (r: u64)
    ensures
        r == event_hash(type_@, data@),
{
    let chars = string_to_chars(type_.as_str());
    let mut h = DefaultHasher::new();
    write_chars(&mut h, &chars);
    h.write(data.as_slice());
    proof {
        assert(h@ =~= event_writes(type_@, data@));
    }
    h.finish()
}

} // verus!
