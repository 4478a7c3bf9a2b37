use binary::{derive_binary, Binary, Data, DeriveError, Shape, Value, Width};
use rand::distributions::{Distribution, Standard};
use rand::thread_rng;

fn example() -> Shape {
    derive_binary(Data::Struct(vec![
        Shape::Unsigned(Width::W16),
        Shape::Signed(Width::W8),
        Shape::Unsigned(Width::W4),
    ]))
    .unwrap()
}

fn other() -> Shape {
    derive_binary(Data::Struct(vec![
        Shape::Unsigned(Width::W16),
        Shape::Signed(Width::W8),
    ]))
    .unwrap()
}

fn whats_it() -> Shape {
    derive_binary(Data::Enum(vec![
        vec![Shape::Unsigned(Width::W16), Shape::Unsigned(Width::W8)],
        vec![
            Shape::Unsigned(Width::W4),
            Shape::Unsigned(Width::W8),
            Shape::Signed(Width::W4),
        ],
        vec![],
    ]))
    .unwrap()
}

#[test]
fn test_custom_named_struct() {
    let mut rng = thread_rng();
    let samples = 10000;
    let shape = example();
    for _i in 0..samples {
        let a: u128 = Standard.sample(&mut rng);
        let b: i64 = Standard.sample(&mut rng);
        let c: f32 = Standard.sample(&mut rng);
        let example = Value::Struct(vec![
            Value::Unsigned(a),
            Value::Signed(b as i128),
            Value::Unsigned(c.to_bits() as u128),
        ]);
        let bytes = shape.to_bytes(&example).unwrap();
        assert_eq!(example, shape.from_bytes(&bytes).unwrap());
    }
}

#[test]
fn test_custom_unnamed_struct() {
    let mut rng = thread_rng();
    let samples = 10000;
    let shape = other();
    for _i in 0..samples {
        let a: u128 = Standard.sample(&mut rng);
        let b: i64 = Standard.sample(&mut rng);
        let other = Value::Struct(vec![Value::Unsigned(a), Value::Signed(b as i128)]);
        let bytes = shape.to_bytes(&other).unwrap();
        assert_eq!(other, shape.from_bytes(&bytes).unwrap());
    }
}

#[test]
fn test_custom_enum() {
    let mut rng = thread_rng();
    let samples = 10000;
    let shape = whats_it();
    for _i in 0..samples {
        let choice: u8 = Standard.sample(&mut rng);
        let choice = choice % 3;
        let whatsit = if choice == 0 {
            let a: u128 = Standard.sample(&mut rng);
            let b: u64 = Standard.sample(&mut rng);
            Value::Enum(0, vec![Value::Unsigned(a), Value::Unsigned(b as u128)])
        } else if choice == 1 {
            let x: f32 = Standard.sample(&mut rng);
            let y: f64 = Standard.sample(&mut rng);
            let z: i32 = Standard.sample(&mut rng);
            Value::Enum(
                1,
                vec![
                    Value::Unsigned(x.to_bits() as u128),
                    Value::Unsigned(y.to_bits() as u128),
                    Value::Signed(z as i128),
                ],
            )
        } else {
            Value::Enum(2, vec![])
        };
        let bytes = shape.to_bytes(&whatsit).unwrap();
        assert_eq!(whatsit, shape.from_bytes(&bytes).unwrap());
    }
}

#[test]
fn record_is_its_fields_in_order() {
    let shape = example();
    let nan = f32::from_bits(0x7fc0_1234);
    assert!(nan.is_nan());
    let v = Value::Struct(vec![
        Value::Unsigned(0x0102030405060708090a0b0c0d0e0f10),
        Value::Signed(-2),
        Value::Unsigned(nan.to_bits() as u128),
    ]);
    let bytes = shape.to_bytes(&v).unwrap();
    let mut expected: Vec<u8> = vec![16, 15, 14, 13, 12, 11, 10, 9, 8, 7, 6, 5, 4, 3, 2, 1];
    expected.extend_from_slice(&[0xfe, 0xff, 0xff, 0xff, 0xff, 0xff, 0xff, 0xff]);
    expected.extend_from_slice(&[0x34, 0x12, 0xc0, 0x7f]);
    assert_eq!(bytes, expected);
    let back = shape.from_bytes(&bytes).unwrap();
    assert_eq!(back, v);
    match back {
        Value::Struct(fields) => match fields[2] {
            Value::Unsigned(bits) => assert_eq!(bits as u32, 0x7fc0_1234),
            _ => panic!("not a bit pattern"),
        },
        _ => panic!("not a record"),
    }
}

#[test]
fn tag_numbers_the_variant() {
    let shape = whats_it();
    assert_eq!(shape.to_bytes(&Value::Enum(2, vec![])).unwrap(), vec![2u8]);
    let first = Value::Enum(0, vec![Value::Unsigned(1), Value::Unsigned(2)]);
    let bytes = shape.to_bytes(&first).unwrap();
    assert_eq!(bytes.len(), 1 + 16 + 8);
    assert_eq!(bytes[0], 0);
    assert_eq!(bytes[1], 1);
    assert_eq!(bytes[17], 2);
    let second = Value::Enum(
        1,
        vec![Value::Unsigned(3), Value::Unsigned(4), Value::Signed(-1)],
    );
    let bytes = shape.to_bytes(&second).unwrap();
    assert_eq!(bytes.len(), 1 + 4 + 8 + 4);
    assert_eq!(bytes[0], 1);
    assert_eq!(shape.from_bytes(&bytes).unwrap(), second);
    assert_eq!(shape.from_bytes(&[2]).unwrap(), Value::Enum(2, vec![]));
}

#[test]
fn tag_out_of_range_fails() {
    let shape = whats_it();
    assert!(shape.parse(&[3]).is_none());
    assert!(shape.parse(&[3, 0, 0, 0, 0, 0, 0, 0, 0]).is_none());
    assert!(shape.parse(&[255]).is_none());
    assert!(shape.parse(&[]).is_none());
    assert!(shape.from_bytes(&[3]).is_none());
    let (v, rest) = shape.parse(&[2, 7]).unwrap();
    assert_eq!(v, Value::Enum(2, vec![]));
    assert_eq!(rest, &[7u8]);
    assert!(shape.from_bytes(&[2, 7]).is_none());
}

#[test]
fn truncated_variant_fails() {
    let shape = whats_it();
    let v = Value::Enum(0, vec![Value::Unsigned(1), Value::Unsigned(2)]);
    let bytes = shape.to_bytes(&v).unwrap();
    for len in 0..bytes.len() {
        assert!(shape.from_bytes(&bytes[..len]).is_none());
        assert!(shape.parse(&bytes[..len]).is_none());
    }
}

#[test]
fn more_than_256_variants_are_refused() {
    let variants = |n: usize| (0..n).map(|_| Vec::new()).collect::<Vec<Vec<Shape>>>();
    assert_eq!(
        derive_binary(Data::Enum(variants(257))),
        Err(DeriveError::TooManyVariants)
    );
    let full = derive_binary(Data::Enum(variants(256))).unwrap();
    assert_eq!(full.to_bytes(&Value::Enum(255, vec![])).unwrap(), vec![255u8]);
    assert_eq!(full.from_bytes(&[255]).unwrap(), Value::Enum(255, vec![]));
    let nested = Data::Struct(vec![Shape::List(Box::new(Shape::Enum(variants(300))))]);
    assert_eq!(derive_binary(nested), Err(DeriveError::TooManyVariants));
    assert!(!Shape::Enum(variants(257)).check());
    assert!(Shape::Enum(variants(0)).check());
}

#[test]
fn unions_are_refused() {
    assert_eq!(derive_binary(Data::Union), Err(DeriveError::NotStructOrEnum));
}

#[test]
fn unit_takes_no_bytes() {
    let unit = derive_binary(Data::Struct(vec![])).unwrap();
    assert_eq!(unit.to_bytes(&Value::Struct(vec![])).unwrap(), Vec::<u8>::new());
    assert_eq!(unit.from_bytes(&[]).unwrap(), Value::Struct(vec![]));
    let (v, rest) = unit.parse(&[1, 2]).unwrap();
    assert_eq!(v, Value::Struct(vec![]));
    assert_eq!(rest, &[1u8, 2]);
}

#[test]
fn values_of_another_shape_are_not_encoded() {
    let shape = example();
    assert!(shape.to_bytes(&Value::Struct(vec![])).is_none());
    assert!(shape.to_bytes(&Value::Bool(true)).is_none());
    assert!(!shape.conforms(&Value::Struct(vec![
        Value::Unsigned(1),
        Value::Signed(2),
        Value::Unsigned(1 << 32),
    ])));
    assert!(Shape::Unsigned(Width::W1).conforms(&Value::Unsigned(255)));
    assert!(!Shape::Unsigned(Width::W1).conforms(&Value::Unsigned(256)));
    assert!(Shape::Signed(Width::W1).conforms(&Value::Signed(-128)));
    assert!(!Shape::Signed(Width::W1).conforms(&Value::Signed(-129)));
    assert!(!Shape::Signed(Width::W1).conforms(&Value::Signed(128)));
    assert!(Shape::Signed(Width::W16).conforms(&Value::Signed(i128::MIN)));
    assert!(whats_it().to_bytes(&Value::Enum(3, vec![])).is_none());
}

#[test]
fn nested_shapes_round_trip() {
    let inner = whats_it();
    let shape = derive_binary(Data::Struct(vec![
        Shape::Str,
        Shape::List(Box::new(inner)),
        Shape::Array(Box::new(Shape::Bool), 2),
        Shape::Char,
        Shape::Signed(Width::W16),
    ]))
    .unwrap();
    let v = Value::Struct(vec![
        Value::Str(String::from("héllo")),
        Value::List(vec![
            Value::Enum(2, vec![]),
            Value::Enum(0, vec![Value::Unsigned(u128::MAX), Value::Unsigned(u64::MAX as u128)]),
        ]),
        Value::List(vec![Value::Bool(true), Value::Bool(false)]),
        Value::Char('\u{10ffff}'),
        Value::Signed(i128::MIN),
    ]);
    let bytes = shape.to_bytes(&v).unwrap();
    assert_eq!(shape.from_bytes(&bytes).unwrap(), v);
    let mut longer = bytes.clone();
    longer.push(0);
    assert!(shape.from_bytes(&longer).is_none());
    let (back, rest) = shape.parse(&longer).unwrap();
    assert_eq!(back, v);
    assert_eq!(rest, &[0u8]);
}

#[test]
fn shapes_write_what_the_types_write() {
    let t: (u16, String, Vec<i32>) = (7, String::from("ab"), vec![-1, 2]);
    let shape = Shape::Struct(vec![
        Shape::Unsigned(Width::W2),
        Shape::Str,
        Shape::List(Box::new(Shape::Signed(Width::W4))),
    ]);
    let v = Value::Struct(vec![
        Value::Unsigned(7),
        Value::Str(String::from("ab")),
        Value::List(vec![Value::Signed(-1), Value::Signed(2)]),
    ]);
    assert_eq!(shape.to_bytes(&v).unwrap(), t.to_bytes());
}
