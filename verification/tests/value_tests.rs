use event_chain::values::{ConversionError, DynVal, SerializableVal};

#[test]
fn scalars_convert_one_to_one() {
    assert_eq!(
        SerializableVal::from_val(&DynVal::Bool(true)),
        Ok(SerializableVal::Bool(true))
    );
    assert_eq!(SerializableVal::from_val(&DynVal::S8(-3)), Ok(SerializableVal::S8(-3)));
    assert_eq!(
        SerializableVal::from_val(&DynVal::U64(u64::MAX)),
        Ok(SerializableVal::U64(u64::MAX))
    );
    assert_eq!(
        SerializableVal::from_val(&DynVal::Char('é')),
        Ok(SerializableVal::Char('é'))
    );
    assert_eq!(
        SerializableVal::from_val(&DynVal::String("hi".to_string())),
        Ok(SerializableVal::String("hi".to_string()))
    );
    let bits = 1.5f32.to_bits();
    assert_eq!(
        SerializableVal::from_val(&DynVal::Float32(bits)),
        Ok(SerializableVal::Float32(bits))
    );
}

#[test]
fn recursive_conversion_preserves_names_order_and_nesting() {
    let v = DynVal::Record(vec![
        (
            "items".to_string(),
            DynVal::List(vec![DynVal::Tuple(vec![
                DynVal::Option(Some(Box::new(DynVal::U32(7)))),
                DynVal::Option(None),
            ])]),
        ),
        ("label".to_string(), DynVal::String("nested".to_string())),
    ]);
    let expected = SerializableVal::Record(vec![
        (
            "items".to_string(),
            SerializableVal::List(vec![SerializableVal::Tuple(vec![
                SerializableVal::Option(Some(Box::new(SerializableVal::U32(7)))),
                SerializableVal::Option(None),
            ])]),
        ),
        (
            "label".to_string(),
            SerializableVal::String("nested".to_string()),
        ),
    ]);
    assert_eq!(SerializableVal::from_val(&v), Ok(expected));
}

#[test]
fn variant_result_enum_flags_convert() {
    let v = DynVal::Variant("go".to_string(), Some(Box::new(DynVal::U8(1))));
    assert_eq!(
        SerializableVal::from_val(&v),
        Ok(SerializableVal::Variant(
            "go".to_string(),
            Some(Box::new(SerializableVal::U8(1)))
        ))
    );
    let r = DynVal::Result(Err(Some(Box::new(DynVal::S32(-9)))));
    assert_eq!(
        SerializableVal::from_val(&r),
        Ok(SerializableVal::Result(Err(Some(Box::new(
            SerializableVal::S32(-9)
        )))))
    );
    let f = DynVal::Flags(vec!["read".to_string(), "write".to_string()]);
    assert_eq!(
        SerializableVal::from_val(&f),
        Ok(SerializableVal::Flags(vec![
            "read".to_string(),
            "write".to_string()
        ]))
    );
    let e = DynVal::Enum("red".to_string());
    assert_eq!(
        SerializableVal::from_val(&e),
        Ok(SerializableVal::Enum("red".to_string()))
    );
}

#[test]
fn from_vals_converts_in_order() {
    let vals = vec![DynVal::U8(1), DynVal::Bool(false)];
    assert_eq!(
        SerializableVal::from_vals(&vals),
        Ok(vec![SerializableVal::U8(1), SerializableVal::Bool(false)])
    );
}

#[test]
fn resource_conversion_is_a_typed_error() {
    assert_eq!(
        SerializableVal::from_val(&DynVal::Resource(3)),
        Err(ConversionError::UnsupportedResource)
    );
    let nested = DynVal::List(vec![DynVal::U8(1), DynVal::Resource(0)]);
    assert_eq!(
        SerializableVal::from_val(&nested),
        Err(ConversionError::UnsupportedResource)
    );
    let vals = vec![DynVal::Bool(true), DynVal::Resource(9)];
    assert_eq!(
        SerializableVal::from_vals(&vals),
        Err(ConversionError::UnsupportedResource)
    );
}

#[test]
fn all_nan_patterns_hash_alike() {
    let nan_a = f32::NAN.to_bits();
    let nan_b = 0x7fc0_0001u32;
    let nan_c = 0xffc0_0000u32;
    let ha = SerializableVal::Float32(nan_a).hash_value().unwrap();
    let hb = SerializableVal::Float32(nan_b).hash_value().unwrap();
    let hc = SerializableVal::Float32(nan_c).hash_value().unwrap();
    assert_eq!(ha, hb);
    assert_eq!(ha, hc);

    let n64a = f64::NAN.to_bits();
    let n64b = 0x7ff8_0000_0000_0001u64;
    let h64a = SerializableVal::Float64(n64a).hash_value().unwrap();
    let h64b = SerializableVal::Float64(n64b).hash_value().unwrap();
    assert_eq!(h64a, h64b);
}

#[test]
fn signed_zeros_hash_alike() {
    let pz = SerializableVal::Float64(0.0f64.to_bits()).hash_value().unwrap();
    let nz = SerializableVal::Float64((-0.0f64).to_bits()).hash_value().unwrap();
    assert_eq!(pz, nz);
    let pz32 = SerializableVal::Float32(0.0f32.to_bits()).hash_value().unwrap();
    let nz32 = SerializableVal::Float32((-0.0f32).to_bits()).hash_value().unwrap();
    assert_eq!(pz32, nz32);
}

#[test]
fn float_hash_is_stable_and_sign_sensitive() {
    let a = SerializableVal::Float32(1.5f32.to_bits()).hash_value().unwrap();
    let b = SerializableVal::Float32(1.5f32.to_bits()).hash_value().unwrap();
    assert_eq!(a, b);
    let neg = SerializableVal::Float32((-1.5f32).to_bits()).hash_value().unwrap();
    assert_ne!(a, neg);
}

#[test]
fn distinct_variants_hash_apart() {
    let l = SerializableVal::List(vec![]).hash_value().unwrap();
    let t = SerializableVal::Tuple(vec![]).hash_value().unwrap();
    assert_ne!(l, t);
    let s1 = SerializableVal::String("a".to_string()).hash_value().unwrap();
    let s2 = SerializableVal::String("b".to_string()).hash_value().unwrap();
    assert_ne!(s1, s2);
}

#[test]
fn recursive_values_hash_deterministically() {
    let make = || {
        SerializableVal::Record(vec![(
            "k".to_string(),
            SerializableVal::List(vec![
                SerializableVal::U8(1),
                SerializableVal::Option(Some(Box::new(SerializableVal::Bool(true)))),
            ]),
        )])
    };
    assert_eq!(make().hash_value().unwrap(), make().hash_value().unwrap());
}

#[test]
fn resource_hash_is_a_typed_error() {
    assert_eq!(
        SerializableVal::Resource(1).hash_value(),
        Err(ConversionError::UnsupportedResource)
    );
    let nested = SerializableVal::Tuple(vec![SerializableVal::Resource(4)]);
    assert_eq!(nested.hash_value(), Err(ConversionError::UnsupportedResource));
}
