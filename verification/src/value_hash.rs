//! Structural hashing of `SerializableVal`.
//!
//! Each variant feeds a distinguishing tag byte to the hasher first, so that
//! variants with equal payloads (an empty list and an empty tuple, say) still
//! hash apart. Floating-point payloads are canonicalized before hashing: all
//! NaN bit patterns hash as one value, and the two signed zeros hash alike.
//! Hashing a resource handle is refused with the typed unsupported error.

use vstd::prelude::*;
use vstd::std_specs::hash::DefaultHasherAdditionalSpecFns;
use std::collections::hash_map::DefaultHasher;
use std::hash::Hasher;
use crate::hashing::{
    char_le_bytes, string_to_chars, u16_le_bytes, u32_le_bytes, u64_le_bytes, write_byte,
    write_chars, write_u16_le, write_u32_le, write_u64_le,
};
use crate::values::{ConversionError, SerializableVal};

verus! {

/// True when the 32-bit pattern encodes a NaN: exponent all ones, nonzero
/// mantissa.
pub open spec fn f32_is_nan(bits: u32) -> bool {
    (bits >> 23) & 0xff == 0xff && bits & 0x7fffff != 0
}

/// True when the 32-bit pattern encodes positive or negative zero.
pub open spec fn f32_is_zero(bits: u32) -> bool {
    bits & 0x7fffffff == 0
}

/// The pattern actually hashed for a 32-bit float: one fixed value for every
/// NaN, zero for both signed zeros, the raw bits otherwise.
pub open spec fn f32_canonical(bits: u32) -> u32 {
    if f32_is_nan(bits) {
        0xffffffffu32
    } else if f32_is_zero(bits) {
        0u32
    } else {
        bits
    }
}

/// True when the 64-bit pattern encodes a NaN.
pub open spec fn f64_is_nan(bits: u64) -> bool {
    (bits >> 52) & 0x7ff == 0x7ff && bits & 0xfffffffffffff != 0
}

/// True when the 64-bit pattern encodes positive or negative zero.
pub open spec fn f64_is_zero(bits: u64) -> bool {
    bits & 0x7fffffffffffffff == 0
}

/// The pattern actually hashed for a 64-bit float.
pub open spec fn f64_canonical(bits: u64) -> u64 {
    if f64_is_nan(bits) {
        0xffffffffffffffffu64
    } else if f64_is_zero(bits) {
        0u64
    } else {
        bits
    }
}

/// The writes for a string: its length, then one write per character.
pub open spec fn str_writes(s: Seq<char>) -> Seq<Seq<u8>> {
    seq![u64_le_bytes(s.len() as u64)] + Seq::new(s.len(), |i: int| char_le_bytes(s[i]))
}

/// The write sequence a value's structural hash is computed over.
pub open spec fn sv_writes(v: SerializableVal) -> Seq<Seq<u8>>
    decreases v,
{
    match v {
        SerializableVal::Bool(b) => seq![seq![0u8], seq![if b { 1u8 } else { 0u8 }]],
        SerializableVal::S8(n) => seq![seq![1u8], seq![n as u8]],
        SerializableVal::U8(n) => seq![seq![2u8], seq![n]],
        SerializableVal::S16(n) => seq![seq![3u8], u16_le_bytes(n as u16)],
        SerializableVal::U16(n) => seq![seq![4u8], u16_le_bytes(n)],
        SerializableVal::S32(n) => seq![seq![5u8], u32_le_bytes(n as u32)],
        SerializableVal::U32(n) => seq![seq![6u8], u32_le_bytes(n)],
        SerializableVal::S64(n) => seq![seq![7u8], u64_le_bytes(n as u64)],
        SerializableVal::U64(n) => seq![seq![8u8], u64_le_bytes(n)],
        SerializableVal::Float32(bits) => seq![seq![9u8], u32_le_bytes(f32_canonical(bits))],
        SerializableVal::Float64(bits) => seq![seq![10u8], u64_le_bytes(f64_canonical(bits))],
        SerializableVal::Char(c) => seq![seq![11u8], char_le_bytes(c)],
        SerializableVal::String(s) => seq![seq![12u8]] + str_writes(s@),
        SerializableVal::List(items) => seq![seq![13u8], u64_le_bytes(items@.len() as u64)]
            + seq_writes(items@),
        SerializableVal::Record(fields) => seq![seq![14u8], u64_le_bytes(fields@.len() as u64)]
            + fields_writes(fields@),
        SerializableVal::Tuple(items) => seq![seq![15u8], u64_le_bytes(items@.len() as u64)]
            + seq_writes(items@),
        SerializableVal::Variant(name, p) => seq![seq![16u8]] + str_writes(name@) + opt_writes(p),
        SerializableVal::Enum(name) => seq![seq![17u8]] + str_writes(name@),
        SerializableVal::Option(p) => seq![seq![18u8]] + opt_writes(p),
        SerializableVal::Result(r) => match r {
            Ok(p) => seq![seq![19u8], seq![0u8]] + opt_writes(p),
            Err(p) => seq![seq![19u8], seq![1u8]] + opt_writes(p),
        },
        SerializableVal::Flags(names) => seq![seq![20u8], u64_le_bytes(names@.len() as u64)]
            + names_writes(names@),
        SerializableVal::Resource(_) => Seq::empty(),
    }
}

pub open spec fn seq_writes(s: Seq<SerializableVal>) -> Seq<Seq<u8>>
    decreases s,
{
    if s.len() == 0 {
        Seq::empty()
    } else {
        seq_writes(s.drop_last()) + sv_writes(s.last())
    }
}

pub open spec fn fields_writes(s: Seq<(String, SerializableVal)>) -> Seq<Seq<u8>>
    decreases s,
{
    if s.len() == 0 {
        Seq::empty()
    } else {
        fields_writes(s.drop_last()) + str_writes(s.last().0@) + sv_writes(s.last().1)
    }
}

pub open spec fn names_writes(s: Seq<String>) -> Seq<Seq<u8>>
    decreases s.len(),
{
    if s.len() == 0 {
        Seq::empty()
    } else {
        names_writes(s.drop_last()) + str_writes(s.last()@)
    }
}

pub open spec fn opt_writes(p: Option<Box<SerializableVal>>) -> Seq<Seq<u8>>
    decreases p,
{
    match p {
        None => seq![seq![0u8]],
        Some(b) => seq![seq![1u8]] + sv_writes(*b),
    }
}

/// True when the mirror value holds a resource handle anywhere inside.
pub open spec fn sv_contains_resource(v: SerializableVal) -> bool
    decreases v,
{
    match v {
        SerializableVal::List(items) => sv_seq_contains_resource(items@),
        SerializableVal::Record(fields) => sv_fields_contain_resource(fields@),
        SerializableVal::Tuple(items) => sv_seq_contains_resource(items@),
        SerializableVal::Variant(_, p) => sv_opt_contains_resource(p),
        SerializableVal::Option(p) => sv_opt_contains_resource(p),
        SerializableVal::Result(r) => match r {
            Ok(p) => sv_opt_contains_resource(p),
            Err(p) => sv_opt_contains_resource(p),
        },
        SerializableVal::Resource(_) => true,
        _ => false,
    }
}

pub open spec fn sv_seq_contains_resource(s: Seq<SerializableVal>) -> bool
    decreases s,
{
    if s.len() == 0 {
        false
    } else {
        sv_seq_contains_resource(s.drop_last()) || sv_contains_resource(s.last())
    }
}

pub open spec fn sv_fields_contain_resource(s: Seq<(String, SerializableVal)>) -> bool
    decreases s,
{
    if s.len() == 0 {
        false
    } else {
        sv_fields_contain_resource(s.drop_last()) || sv_contains_resource(s.last().1)
    }
}

pub open spec fn sv_opt_contains_resource(p: Option<Box<SerializableVal>>) -> bool
    decreases p,
{
    match p {
        None => false,
        Some(b) => sv_contains_resource(*b),
    }
}

/// The structural hash of a resource-free mirror value.
pub open spec fn sv_hash(v: SerializableVal) -> u64 {
    DefaultHasher::spec_finish(sv_writes(v))
}

/// A resource at one position makes the whole sequence resource-bearing.
proof fn lemma_sv_seq_contains_at(s: Seq<SerializableVal>, i: int)
    requires
        0 <= i < s.len(),
        sv_contains_resource(s[i]),
    ensures
        sv_seq_contains_resource(s),
    decreases s.len(),
{
    if i == s.len() - 1 {
    } else {
        assert(s.drop_last()[i] == s[i]);
        lemma_sv_seq_contains_at(s.drop_last(), i);
    }
}

proof fn lemma_sv_fields_contain_at(s: Seq<(String, SerializableVal)>, i: int)
    requires
        0 <= i < s.len(),
        sv_contains_resource(s[i].1),
    ensures
        sv_fields_contain_resource(s),
    decreases s.len(),
{
    if i == s.len() - 1 {
    } else {
        assert(s.drop_last()[i] == s[i]);
        lemma_sv_fields_contain_at(s.drop_last(), i);
    }
}

/// Computes the canonical hashed pattern for a 32-bit float's bits.
fn canon32(bits: u32) -> (r: u32)
    ensures
        r == f32_canonical(bits),
{
    if (bits >> 23) & 0xff == 0xff && bits & 0x7fffff != 0 {
        0xffffffffu32
    } else if bits & 0x7fffffff == 0 {
        0u32
    } else {
        bits
    }
}

/// Computes the canonical hashed pattern for a 64-bit float's bits.
fn canon64(bits: u64) -> (r: u64)
    ensures
        r == f64_canonical(bits),
{
    if (bits >> 52) & 0x7ff == 0x7ff && bits & 0xfffffffffffff != 0 {
        0xffffffffffffffffu64
    } else if bits & 0x7fffffffffffffff == 0 {
        0u64
    } else {
        bits
    }
}

/// Feeds a string to the hasher: its length, then each character.
fn write_string(h: &mut DefaultHasher, s: &String)
    ensures
        final(h)@ == old(h)@ + str_writes(s@),
{
    let chars = string_to_chars(s.as_str());
    write_u64_le(h, chars.len() as u64);
    write_chars(h, &chars);
    assert(final(h)@ =~= old(h)@ + str_writes(s@));
}

impl SerializableVal {
    /// Feeds this value's structural-hash writes to the hasher. Succeeds
    /// exactly when the value holds no resource handle; a resource yields
    /// the typed unsupported error and leaves the hash unusable, fail-fast.
    #[verifier::rlimit(100)]
    fn hash_into(&self, h: &mut DefaultHasher) -> (r: Result<(), ConversionError>)
        ensures
            r is Ok <==> !sv_contains_resource(*self),
            r is Ok ==> final(h)@ == old(h)@ + sv_writes(*self),
            r matches Err(e) ==> e == ConversionError::UnsupportedResource,
        decreases *self,
    {
        match self {
            SerializableVal::Bool(b) => {
                write_byte(h, 0);
                write_byte(h, if *b { 1 } else { 0 });
                proof {
                    assert(h@ =~= old(h)@ + sv_writes(*self));
                }
                Ok(())
            },
            SerializableVal::S8(n) => {
                write_byte(h, 1);
                write_byte(h, *n as u8);
                proof {
                    assert(h@ =~= old(h)@ + sv_writes(*self));
                }
                Ok(())
            },
            SerializableVal::U8(n) => {
                write_byte(h, 2);
                write_byte(h, *n);
                proof {
                    assert(h@ =~= old(h)@ + sv_writes(*self));
                }
                Ok(())
            },
            SerializableVal::S16(n) => {
                write_byte(h, 3);
                write_u16_le(h, *n as u16);
                proof {
                    assert(h@ =~= old(h)@ + sv_writes(*self));
                }
                Ok(())
            },
            SerializableVal::U16(n) => {
                write_byte(h, 4);
                write_u16_le(h, *n);
                proof {
                    assert(h@ =~= old(h)@ + sv_writes(*self));
                }
                Ok(())
            },
            SerializableVal::S32(n) => {
                write_byte(h, 5);
                write_u32_le(h, *n as u32);
                proof {
                    assert(h@ =~= old(h)@ + sv_writes(*self));
                }
                Ok(())
            },
            SerializableVal::U32(n) => {
                write_byte(h, 6);
                write_u32_le(h, *n);
                proof {
                    assert(h@ =~= old(h)@ + sv_writes(*self));
                }
                Ok(())
            },
            SerializableVal::S64(n) => {
                write_byte(h, 7);
                write_u64_le(h, *n as u64);
                proof {
                    assert(h@ =~= old(h)@ + sv_writes(*self));
                }
                Ok(())
            },
            SerializableVal::U64(n) => {
                write_byte(h, 8);
                write_u64_le(h, *n);
                proof {
                    assert(h@ =~= old(h)@ + sv_writes(*self));
                }
                Ok(())
            },
            SerializableVal::Float32(bits) => {
                write_byte(h, 9);
                write_u32_le(h, canon32(*bits));
                proof {
                    assert(h@ =~= old(h)@ + sv_writes(*self));
                }
                Ok(())
            },
            SerializableVal::Float64(bits) => {
                write_byte(h, 10);
                write_u64_le(h, canon64(*bits));
                proof {
                    assert(h@ =~= old(h)@ + sv_writes(*self));
                }
                Ok(())
            },
            SerializableVal::Char(c) => {
                write_byte(h, 11);
                write_u32_le(h, *c as u32);
                proof {
                    assert(h@ =~= old(h)@ + sv_writes(*self));
                }
                Ok(())
            },
            SerializableVal::String(s) => {
                write_byte(h, 12);
                write_string(h, s);
                proof {
                    assert(h@ =~= old(h)@ + sv_writes(*self));
                }
                Ok(())
            },
            SerializableVal::List(items) => {
                write_byte(h, 13);
                write_u64_le(h, items.len() as u64);
                match Self::hash_seq(items, h) {
                    Ok(()) => {
                        proof {
                            assert(h@ =~= old(h)@ + sv_writes(*self));
                        }
                        Ok(())
                    },
                    Err(e) => Err(e),
                }
            },
            SerializableVal::Tuple(items) => {
                write_byte(h, 15);
                write_u64_le(h, items.len() as u64);
                match Self::hash_seq(items, h) {
                    Ok(()) => {
                        proof {
                            assert(h@ =~= old(h)@ + sv_writes(*self));
                        }
                        Ok(())
                    },
                    Err(e) => Err(e),
                }
            },
            SerializableVal::Record(fields) => {
                write_byte(h, 14);
                write_u64_le(h, fields.len() as u64);
                match Self::hash_fields(fields, h) {
                    Ok(()) => {
                        proof {
                            assert(h@ =~= old(h)@ + sv_writes(*self));
                        }
                        Ok(())
                    },
                    Err(e) => Err(e),
                }
            },
            SerializableVal::Variant(name, p) => {
                write_byte(h, 16);
                write_string(h, name);
                match Self::hash_opt(p, h) {
                    Ok(()) => {
                        proof {
                            assert(h@ =~= old(h)@ + sv_writes(*self));
                        }
                        Ok(())
                    },
                    Err(e) => Err(e),
                }
            },
            SerializableVal::Enum(name) => {
                write_byte(h, 17);
                write_string(h, name);
                proof {
                    assert(h@ =~= old(h)@ + sv_writes(*self));
                }
                Ok(())
            },
            SerializableVal::Option(p) => {
                write_byte(h, 18);
                match Self::hash_opt(p, h) {
                    Ok(()) => {
                        proof {
                            assert(h@ =~= old(h)@ + sv_writes(*self));
                        }
                        Ok(())
                    },
                    Err(e) => Err(e),
                }
            },
            SerializableVal::Result(r) => {
                write_byte(h, 19);
                let p = match r {
                    Ok(p) => {
                        write_byte(h, 0);
                        p
                    },
                    Err(p) => {
                        write_byte(h, 1);
                        p
                    },
                };
                match Self::hash_opt(p, h) {
                    Ok(()) => {
                        proof {
                            assert(h@ =~= old(h)@ + sv_writes(*self));
                        }
                        Ok(())
                    },
                    Err(e) => Err(e),
                }
            },
            SerializableVal::Flags(names) => {
                write_byte(h, 20);
                write_u64_le(h, names.len() as u64);
                let ghost pre = h@;
                let mut i: usize = 0;
                proof {
                    assert(names@.take(0) =~= Seq::<String>::empty());
                }
                while i < names.len()
                    invariant
                        i <= names@.len(),
                        h@ == pre + names_writes(names@.take(i as int)),
                    decreases names@.len() - i,
                {
                    write_string(h, &names[i]);
                    proof {
                        assert(names@.take(i + 1).drop_last() =~= names@.take(i as int));
                        assert(names@.take(i + 1).last() == names@[i as int]);
                        assert(h@ =~= pre + names_writes(names@.take(i + 1)));
                    }
                    i = i + 1;
                }
                proof {
                    assert(names@.take(names@.len() as int) =~= names@);
                    assert(h@ =~= old(h)@ + sv_writes(*self));
                }
                Ok(())
            },
            SerializableVal::Resource(_) => Err(ConversionError::UnsupportedResource),
        }
    }

    fn hash_seq(items: &Vec<SerializableVal>, h: &mut DefaultHasher) -> (r: Result<
        (),
        ConversionError,
    >)
        ensures
            r is Ok <==> !sv_seq_contains_resource(items@),
            r is Ok ==> final(h)@ == old(h)@ + seq_writes(items@),
            r matches Err(e) ==> e == ConversionError::UnsupportedResource,
        decreases items@,
    {
        let mut i: usize = 0;
        proof {
            assert(items@.take(0) =~= Seq::<SerializableVal>::empty());
        }
        while i < items.len()
            invariant
                i <= items@.len(),
                h@ == old(h)@ + seq_writes(items@.take(i as int)),
                !sv_seq_contains_resource(items@.take(i as int)),
            decreases items@.len() - i,
        {
            proof {
                vstd::seq::axiom_seq_index_decreases(items@, i as int);
            }
            match items[i].hash_into(h) {
                Ok(()) => {
                    proof {
                        assert(items@.take(i + 1).drop_last() =~= items@.take(i as int));
                        assert(items@.take(i + 1).last() == items@[i as int]);
                        assert(h@ =~= old(h)@ + seq_writes(items@.take(i + 1)));
                    }
                },
                Err(e) => {
                    proof {
                        lemma_sv_seq_contains_at(items@, i as int);
                    }
                    return Err(e);
                },
            }
            i = i + 1;
        }
        proof {
            assert(items@.take(items@.len() as int) =~= items@);
        }
        Ok(())
    }

    fn hash_fields(fields: &Vec<(String, SerializableVal)>, h: &mut DefaultHasher) -> (r: Result<
        (),
        ConversionError,
    >)
        ensures
            r is Ok <==> !sv_fields_contain_resource(fields@),
            r is Ok ==> final(h)@ == old(h)@ + fields_writes(fields@),
            r matches Err(e) ==> e == ConversionError::UnsupportedResource,
        decreases fields@,
    {
        let mut i: usize = 0;
        proof {
            assert(fields@.take(0) =~= Seq::<(String, SerializableVal)>::empty());
        }
        while i < fields.len()
            invariant
                i <= fields@.len(),
                h@ == old(h)@ + fields_writes(fields@.take(i as int)),
                !sv_fields_contain_resource(fields@.take(i as int)),
            decreases fields@.len() - i,
        {
            proof {
                vstd::seq::axiom_seq_index_decreases(fields@, i as int);
                assert(decreases_to!(fields@[i as int] => fields@[i as int].1));
            }
            write_string(h, &fields[i].0);
            match fields[i].1.hash_into(h) {
                Ok(()) => {
                    proof {
                        assert(fields@.take(i + 1).drop_last() =~= fields@.take(i as int));
                        assert(fields@.take(i + 1).last() == fields@[i as int]);
                        assert(h@ =~= old(h)@ + fields_writes(fields@.take(i + 1)));
                    }
                },
                Err(e) => {
                    proof {
                        lemma_sv_fields_contain_at(fields@, i as int);
                    }
                    return Err(e);
                },
            }
            i = i + 1;
        }
        proof {
            assert(fields@.take(fields@.len() as int) =~= fields@);
        }
        Ok(())
    }

    fn hash_opt(p: &Option<Box<SerializableVal>>, h: &mut DefaultHasher) -> (r: Result<
        (),
        ConversionError,
    >)
        ensures
            r is Ok <==> !sv_opt_contains_resource(*p),
            r is Ok ==> final(h)@ == old(h)@ + opt_writes(*p),
            r matches Err(e) ==> e == ConversionError::UnsupportedResource,
        decreases *p,
    {
        match p {
            None => {
                write_byte(h, 0);
                proof {
                    assert(h@ =~= old(h)@ + opt_writes(*p));
                }
                Ok(())
            },
            Some(b) => {
                write_byte(h, 1);
                match (&**b).hash_into(h) {
                    Ok(()) => {
                        proof {
                            assert(h@ =~= old(h)@ + opt_writes(*p));
                        }
                        Ok(())
                    },
                    Err(e) => Err(e),
                }
            },
        }
    }

    /// The structural hash of this value: the variant's tag byte first, then
    /// its contents recursively, with float canonicalization. Succeeds
    /// exactly when the value holds no resource handle, and then returns
    /// `sv_hash`, a deterministic function of the value alone.
    pub fn hash_value(&self) -> (r: Result<u64, ConversionError>)
        ensures
            r is Ok <==> !sv_contains_resource(*self),
            r matches Ok(v) ==> v == sv_hash(*self),
            r matches Err(e) ==> e == ConversionError::UnsupportedResource,
    {
        let mut h = DefaultHasher::new();
        match self.hash_into(&mut h) {
            Ok(()) => {
                proof {
                    assert(h@ =~= sv_writes(*self));
                }
                Ok(h.finish())
            },
            Err(e) => Err(e),
        }
    }
}

/// Two NaN bit patterns of 32-bit width hash identically, whatever their
/// payload or sign bits.
pub proof fn lemma_f32_nan_hash(a: u32, b: u32)
    requires
        f32_is_nan(a),
        f32_is_nan(b),
    ensures
        sv_hash(SerializableVal::Float32(a)) == sv_hash(SerializableVal::Float32(b)),
{
}

/// Two NaN bit patterns of 64-bit width hash identically.
pub proof fn lemma_f64_nan_hash(a: u64, b: u64)
    requires
        f64_is_nan(a),
        f64_is_nan(b),
    ensures
        sv_hash(SerializableVal::Float64(a)) == sv_hash(SerializableVal::Float64(b)),
{
}

/// Positive and negative zero of 32-bit width hash identically.
pub proof fn lemma_f32_zero_hash(a: u32, b: u32)
    requires
        f32_is_zero(a),
        f32_is_zero(b),
    ensures
        sv_hash(SerializableVal::Float32(a)) == sv_hash(SerializableVal::Float32(b)),
{
    assert(!f32_is_nan(a)) by (bit_vector)
        requires
            a & 0x7fffffff == 0,
    ;
    assert(!f32_is_nan(b)) by (bit_vector)
        requires
            b & 0x7fffffff == 0,
    ;
}

/// Positive and negative zero of 64-bit width hash identically.
pub proof fn lemma_f64_zero_hash(a: u64, b: u64)
    requires
        f64_is_zero(a),
        f64_is_zero(b),
    ensures
        sv_hash(SerializableVal::Float64(a)) == sv_hash(SerializableVal::Float64(b)),
{
    assert(!f64_is_nan(a)) by (bit_vector)
        requires
            a & 0x7fffffffffffffff == 0,
    ;
    assert(!f64_is_nan(b)) by (bit_vector)
        requires
            b & 0x7fffffffffffffff == 0,
    ;
}

} // verus!
