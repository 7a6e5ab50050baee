//! The structural mirror of the dynamically-typed value model.
//!
//! `DynVal` stands for the dynamic values the component boundary produces;
//! `SerializableVal` is its transportable mirror. Conversion is recursive,
//! fail-fast, and total except for resource handles, which are rejected with
//! a typed error rather than aborting.

use vstd::prelude::*;

verus! {

/// A dynamic value as the component boundary's value model supplies it.
/// Floating-point payloads are carried as their IEEE 754 bit patterns.
#[derive(Debug, PartialEq)]
pub enum DynVal {
    Bool(bool),
    S8(i8),
    U8(u8),
    S16(i16),
    U16(u16),
    S32(i32),
    U32(u32),
    S64(i64),
    U64(u64),
    Float32(u32),
    Float64(u64),
    Char(char),
    String(String),
    List(Vec<DynVal>),
    Record(Vec<(String, DynVal)>),
    Tuple(Vec<DynVal>),
    Variant(String, Option<Box<DynVal>>),
    Enum(String),
    Option(Option<Box<DynVal>>),
    Result(Result<Option<Box<DynVal>>, Option<Box<DynVal>>>),
    Flags(Vec<String>),
    Resource(u32),
}

/// The transportable, hashable mirror of `DynVal`. Identical in shape;
/// floating-point payloads are IEEE 754 bit patterns here as well.
#[derive(Debug, PartialEq)]
pub enum SerializableVal {
    Bool(bool),
    S8(i8),
    U8(u8),
    S16(i16),
    U16(u16),
    S32(i32),
    U32(u32),
    S64(i64),
    U64(u64),
    Float32(u32),
    Float64(u64),
    Char(char),
    String(String),
    List(Vec<SerializableVal>),
    Record(Vec<(String, SerializableVal)>),
    Tuple(Vec<SerializableVal>),
    Variant(String, Option<Box<SerializableVal>>),
    Enum(String),
    Option(Option<Box<SerializableVal>>),
    Result(Result<Option<Box<SerializableVal>>, Option<Box<SerializableVal>>>),
    Flags(Vec<String>),
    Resource(u32),
}

/// Why a conversion or a structural hash was refused.
#[derive(Debug, Clone, Copy, PartialEq, Eq, Structural)]
pub enum ConversionError {
    /// The value carries an opaque resource handle, which cannot be
    /// mirrored or hashed.
    UnsupportedResource,
}

/// True when the dynamic value holds a resource handle anywhere inside.
pub open spec fn contains_resource(d: DynVal) -> bool
    decreases d,
{
    match d {
        DynVal::List(items) => seq_contains_resource(items@),
        DynVal::Record(fields) => fields_contain_resource(fields@),
        DynVal::Tuple(items) => seq_contains_resource(items@),
        DynVal::Variant(_, payload) => opt_contains_resource(payload),
        DynVal::Option(payload) => opt_contains_resource(payload),
        DynVal::Result(r) => match r {
            Ok(payload) => opt_contains_resource(payload),
            Err(payload) => opt_contains_resource(payload),
        },
        DynVal::Resource(_) => true,
        _ => false,
    }
}

pub open spec fn seq_contains_resource(s: Seq<DynVal>) -> bool
    decreases s,
{
    if s.len() == 0 {
        false
    } else {
        contains_resource(s[0]) || seq_contains_resource(s.drop_first())
    }
}

pub open spec fn fields_contain_resource(s: Seq<(String, DynVal)>) -> bool
    decreases s,
{
    if s.len() == 0 {
        false
    } else {
        contains_resource(s[0].1) || fields_contain_resource(s.drop_first())
    }
}

pub open spec fn opt_contains_resource(o: Option<Box<DynVal>>) -> bool
    decreases o,
{
    match o {
        None => false,
        Some(b) => contains_resource(*b),
    }
}

/// Structural correspondence between a dynamic value and its mirror: same
/// case, same scalar payloads, same names, same order, element by element.
pub open spec fn mirrors(d: DynVal, s: SerializableVal) -> bool
    decreases d,
{
    match (d, s) {
        (DynVal::Bool(a), SerializableVal::Bool(b)) => a == b,
        (DynVal::S8(a), SerializableVal::S8(b)) => a == b,
        (DynVal::U8(a), SerializableVal::U8(b)) => a == b,
        (DynVal::S16(a), SerializableVal::S16(b)) => a == b,
        (DynVal::U16(a), SerializableVal::U16(b)) => a == b,
        (DynVal::S32(a), SerializableVal::S32(b)) => a == b,
        (DynVal::U32(a), SerializableVal::U32(b)) => a == b,
        (DynVal::S64(a), SerializableVal::S64(b)) => a == b,
        (DynVal::U64(a), SerializableVal::U64(b)) => a == b,
        (DynVal::Float32(a), SerializableVal::Float32(b)) => a == b,
        (DynVal::Float64(a), SerializableVal::Float64(b)) => a == b,
        (DynVal::Char(a), SerializableVal::Char(b)) => a == b,
        (DynVal::String(a), SerializableVal::String(b)) => a@ == b@,
        (DynVal::List(xs), SerializableVal::List(ys)) => seq_mirrors(xs@, ys@),
        (DynVal::Record(xf), SerializableVal::Record(yf)) => fields_mirror(xf@, yf@),
        (DynVal::Tuple(xs), SerializableVal::Tuple(ys)) => seq_mirrors(xs@, ys@),
        (DynVal::Variant(n1, p1), SerializableVal::Variant(n2, p2)) => n1@ == n2@
            && opt_mirrors(p1, p2),
        (DynVal::Enum(a), SerializableVal::Enum(b)) => a@ == b@,
        (DynVal::Option(p1), SerializableVal::Option(p2)) => opt_mirrors(p1, p2),
        (DynVal::Result(r1), SerializableVal::Result(r2)) => match (r1, r2) {
            (Ok(p1), Ok(p2)) => opt_mirrors(p1, p2),
            (Err(p1), Err(p2)) => opt_mirrors(p1, p2),
            _ => false,
        },
        (DynVal::Flags(a), SerializableVal::Flags(b)) => names_equal(a@, b@),
        (DynVal::Resource(a), SerializableVal::Resource(b)) => a == b,
        _ => false,
    }
}

pub open spec fn seq_mirrors(xs: Seq<DynVal>, ys: Seq<SerializableVal>) -> bool
    decreases xs,
{
    if xs.len() != ys.len() {
        false
    } else if xs.len() == 0 {
        true
    } else {
        mirrors(xs[0], ys[0]) && seq_mirrors(xs.drop_first(), ys.drop_first())
    }
}

pub open spec fn fields_mirror(xf: Seq<(String, DynVal)>, yf: Seq<(String, SerializableVal)>) -> bool
    decreases xf,
{
    if xf.len() != yf.len() {
        false
    } else if xf.len() == 0 {
        true
    } else {
        xf[0].0@ == yf[0].0@ && mirrors(xf[0].1, yf[0].1) && fields_mirror(
            xf.drop_first(),
            yf.drop_first(),
        )
    }
}

pub open spec fn opt_mirrors(p1: Option<Box<DynVal>>, p2: Option<Box<SerializableVal>>) -> bool
    decreases p1,
{
    match (p1, p2) {
        (None, None) => true,
        (Some(a), Some(b)) => mirrors(*a, *b),
        _ => false,
    }
}

/// The same flag names in the same order.
pub open spec fn names_equal(a: Seq<String>, b: Seq<String>) -> bool {
    a.len() == b.len() && forall|i: int| 0 <= i < a.len() ==> a[i]@ == b[i]@
}

/// A mirror element for each list element in order, none of them holding a
/// resource.
proof fn lemma_seq_step(xs: Seq<DynVal>, ys: Seq<SerializableVal>, x: DynVal, y: SerializableVal)
    requires
        seq_mirrors(xs, ys),
        mirrors(x, y),
    ensures
        seq_mirrors(xs.push(x), ys.push(y)),
    decreases xs.len(),
{
    if xs.len() == 0 {
        assert(xs.push(x).drop_first() =~= xs);
        assert(ys.push(y).drop_first() =~= ys);
        assert(seq_mirrors(xs.push(x).drop_first(), ys.push(y).drop_first()));
    } else {
        assert(xs.push(x).drop_first() =~= xs.drop_first().push(x));
        assert(ys.push(y).drop_first() =~= ys.drop_first().push(y));
        lemma_seq_step(xs.drop_first(), ys.drop_first(), x, y);
    }
}

proof fn lemma_fields_step(
    xf: Seq<(String, DynVal)>,
    yf: Seq<(String, SerializableVal)>,
    x: (String, DynVal),
    y: (String, SerializableVal),
)
    requires
        fields_mirror(xf, yf),
        x.0@ == y.0@,
        mirrors(x.1, y.1),
    ensures
        fields_mirror(xf.push(x), yf.push(y)),
    decreases xf.len(),
{
    if xf.len() == 0 {
        assert(xf.push(x).drop_first() =~= xf);
        assert(yf.push(y).drop_first() =~= yf);
        assert(fields_mirror(xf.push(x).drop_first(), yf.push(y).drop_first()));
    } else {
        assert(xf.push(x).drop_first() =~= xf.drop_first().push(x));
        assert(yf.push(y).drop_first() =~= yf.drop_first().push(y));
        lemma_fields_step(xf.drop_first(), yf.drop_first(), x, y);
    }
}

proof fn lemma_seq_resource_step(xs: Seq<DynVal>, x: DynVal)
    ensures
        seq_contains_resource(xs.push(x)) == (seq_contains_resource(xs) || contains_resource(x)),
    decreases xs.len(),
{
    if xs.len() == 0 {
        assert(xs.push(x)[0] == x);
        assert(xs.push(x).drop_first() =~= xs);
    } else {
        assert(xs.push(x)[0] == xs[0]);
        assert(xs.push(x).drop_first() =~= xs.drop_first().push(x));
        lemma_seq_resource_step(xs.drop_first(), x);
    }
}

proof fn lemma_fields_resource_step(xf: Seq<(String, DynVal)>, x: (String, DynVal))
    ensures
        fields_contain_resource(xf.push(x)) == (fields_contain_resource(xf) || contains_resource(
            x.1,
        )),
    decreases xf.len(),
{
    if xf.len() == 0 {
        assert(xf.push(x)[0] == x);
        assert(xf.push(x).drop_first() =~= xf);
    } else {
        assert(xf.push(x)[0] == xf[0]);
        assert(xf.push(x).drop_first() =~= xf.drop_first().push(x));
        lemma_fields_resource_step(xf.drop_first(), x);
    }
}

impl SerializableVal {
    /// Recursively mirrors a dynamic value. Succeeds exactly when the value
    /// holds no resource handle; the result then corresponds to the input
    /// case by case, with names, order and nesting preserved. A
    /// resource-bearing value yields the typed unsupported error, fail-fast.
    pub fn from_val(val: &DynVal) -> (r: Result<SerializableVal, ConversionError>)
        ensures
            r is Ok <==> !contains_resource(*val),
            r matches Ok(s) ==> mirrors(*val, s),
            r matches Err(e) ==> e == ConversionError::UnsupportedResource,
        decreases *val,
    {
        match val {
            DynVal::Bool(b) => Ok(SerializableVal::Bool(*b)),
            DynVal::S8(n) => Ok(SerializableVal::S8(*n)),
            DynVal::U8(n) => Ok(SerializableVal::U8(*n)),
            DynVal::S16(n) => Ok(SerializableVal::S16(*n)),
            DynVal::U16(n) => Ok(SerializableVal::U16(*n)),
            DynVal::S32(n) => Ok(SerializableVal::S32(*n)),
            DynVal::U32(n) => Ok(SerializableVal::U32(*n)),
            DynVal::S64(n) => Ok(SerializableVal::S64(*n)),
            DynVal::U64(n) => Ok(SerializableVal::U64(*n)),
            DynVal::Float32(bits) => Ok(SerializableVal::Float32(*bits)),
            DynVal::Float64(bits) => Ok(SerializableVal::Float64(*bits)),
            DynVal::Char(c) => Ok(SerializableVal::Char(*c)),
            DynVal::String(s) => Ok(SerializableVal::String(s.clone())),
            DynVal::List(items) => match Self::from_seq(items) {
                Ok(out) => Ok(SerializableVal::List(out)),
                Err(e) => Err(e),
            },
            DynVal::Tuple(items) => match Self::from_seq(items) {
                Ok(out) => Ok(SerializableVal::Tuple(out)),
                Err(e) => Err(e),
            },
            DynVal::Record(fields) => {
                let mut out: Vec<(String, SerializableVal)> = Vec::new();
                let mut i: usize = 0;
                proof {
                    assert(fields@.take(0) =~= Seq::<(String, DynVal)>::empty());
                }
                while i < fields.len()
                    invariant
                        *val == DynVal::Record(*fields),
                        i <= fields@.len(),
                        fields_mirror(fields@.take(i as int), out@),
                        !fields_contain_resource(fields@.take(i as int)),
                        contains_resource(*val) == fields_contain_resource(fields@),
                    decreases fields@.len() - i,
                {
                    proof {
                        vstd::seq::axiom_seq_index_decreases(fields@, i as int);
                    }
                    let name = fields[i].0.clone();
                    match Self::from_val(&fields[i].1) {
                        Ok(s) => {
                            let ghost prev = out@;
                            let ghost entry = (name, s);
                            out.push((name, s));
                            proof {
                                lemma_fields_step(
                                    fields@.take(i as int),
                                    prev,
                                    fields@[i as int],
                                    entry,
                                );
                                assert(fields@.take(i + 1) =~= fields@.take(i as int).push(
                                    fields@[i as int],
                                ));
                                assert(out@ =~= prev.push(entry));
                                lemma_fields_resource_step(
                                    fields@.take(i as int),
                                    fields@[i as int],
                                );
                            }
                        },
                        Err(e) => {
                            proof {
                                lemma_fields_resource_prefix(fields@, i as int);
                            }
                            return Err(e);
                        },
                    }
                    i = i + 1;
                }
                proof {
                    assert(fields@.take(fields@.len() as int) =~= fields@);
                }
                Ok(SerializableVal::Record(out))
            },
            DynVal::Variant(name, payload) => match Self::from_opt(payload) {
                Ok(p) => Ok(SerializableVal::Variant(name.clone(), p)),
                Err(e) => Err(e),
            },
            DynVal::Enum(name) => Ok(SerializableVal::Enum(name.clone())),
            DynVal::Option(payload) => match Self::from_opt(payload) {
                Ok(p) => Ok(SerializableVal::Option(p)),
                Err(e) => Err(e),
            },
            DynVal::Result(r) => match r {
                Ok(payload) => match Self::from_opt(payload) {
                    Ok(p) => Ok(SerializableVal::Result(Ok(p))),
                    Err(e) => Err(e),
                },
                Err(payload) => match Self::from_opt(payload) {
                    Ok(p) => Ok(SerializableVal::Result(Err(p))),
                    Err(e) => Err(e),
                },
            },
            DynVal::Flags(names) => {
                let mut out: Vec<String> = Vec::new();
                let mut i: usize = 0;
                while i < names.len()
                    invariant
                        i <= names@.len(),
                        out@.len() == i,
                        forall|j: int| 0 <= j < i ==> out@[j]@ == names@[j]@,
                    decreases names@.len() - i,
                {
                    out.push(names[i].clone());
                    i = i + 1;
                }
                Ok(SerializableVal::Flags(out))
            },
            DynVal::Resource(_) => Err(ConversionError::UnsupportedResource),
        }
    }

    /// Element-wise conversion of a sequence of dynamic values, in order,
    /// with the same fail-fast behaviour as `from_val`.
    pub fn from_vals(vals: &Vec<DynVal>) -> (r: Result<
        Vec<SerializableVal>,
        ConversionError,
    >)
        ensures
            r is Ok <==> !seq_contains_resource(vals@),
            r matches Ok(out) ==> seq_mirrors(vals@, out@),
            r matches Err(e) ==> e == ConversionError::UnsupportedResource,
    {
        Self::from_seq(vals)
    }

    fn from_seq(items: &Vec<DynVal>) -> (r: Result<Vec<SerializableVal>, ConversionError>)
        ensures
            r is Ok <==> !seq_contains_resource(items@),
            r matches Ok(out) ==> seq_mirrors(items@, out@),
            r matches Err(e) ==> e == ConversionError::UnsupportedResource,
        decreases items@,
    {
        let mut out: Vec<SerializableVal> = Vec::new();
        let mut i: usize = 0;
        proof {
            assert(items@.take(0) =~= Seq::<DynVal>::empty());
        }
        while i < items.len()
            invariant
                i <= items@.len(),
                seq_mirrors(items@.take(i as int), out@),
                !seq_contains_resource(items@.take(i as int)),
            decreases items@.len() - i,
        {
            proof {
                vstd::seq::axiom_seq_index_decreases(items@, i as int);
            }
            match Self::from_val(&items[i]) {
                Ok(s) => {
                    let ghost prev = out@;
                    let ghost elem = s;
                    out.push(s);
                    proof {
                        lemma_seq_step(items@.take(i as int), prev, items@[i as int], elem);
                        assert(items@.take(i + 1) =~= items@.take(i as int).push(items@[i as int]));
                        assert(out@ =~= prev.push(elem));
                        lemma_seq_resource_step(items@.take(i as int), items@[i as int]);
                    }
                },
                Err(e) => {
                    proof {
                        lemma_seq_resource_prefix(items@, i as int);
                    }
                    return Err(e);
                },
            }
            i = i + 1;
        }
        proof {
            assert(items@.take(items@.len() as int) =~= items@);
        }
        Ok(out)
    }

    fn from_opt(payload: &Option<Box<DynVal>>) -> (r: Result<
        Option<Box<SerializableVal>>,
        ConversionError,
    >)
        ensures
            r is Ok <==> !opt_contains_resource(*payload),
            r matches Ok(p) ==> opt_mirrors(*payload, p),
            r matches Err(e) ==> e == ConversionError::UnsupportedResource,
        decreases *payload,
    {
        match payload {
            None => Ok(None),
            Some(b) => match Self::from_val(&**b) {
                Ok(s) => Ok(Some(Box::new(s))),
                Err(e) => Err(e),
            },
        }
    }
}

/// A resource anywhere in a sequence shows up already in some prefix step.
proof fn lemma_seq_resource_prefix(s: Seq<DynVal>, i: int)
    requires
        0 <= i < s.len(),
        !seq_contains_resource(s.take(i)),
        contains_resource(s[i]),
    ensures
        seq_contains_resource(s),
    decreases i,
{
    if i == 0 {
        assert(contains_resource(s[0]));
    } else {
        assert(s.take(i).drop_first() =~= s.drop_first().take(i - 1));
        assert(s.take(i)[0] == s[0]);
        assert(s.drop_first()[i - 1] == s[i]);
        lemma_seq_resource_prefix(s.drop_first(), i - 1);
    }
}

proof fn lemma_fields_resource_prefix(s: Seq<(String, DynVal)>, i: int)
    requires
        0 <= i < s.len(),
        !fields_contain_resource(s.take(i)),
        contains_resource(s[i].1),
    ensures
        fields_contain_resource(s),
    decreases i,
{
    if i == 0 {
        assert(contains_resource(s[0].1));
    } else {
        assert(s.take(i).drop_first() =~= s.drop_first().take(i - 1));
        assert(s.take(i)[0] == s[0]);
        assert(s.drop_first()[i - 1] == s[i]);
        lemma_fields_resource_prefix(s.drop_first(), i - 1);
    }
}

} // verus!
