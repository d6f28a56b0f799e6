use std::fmt::Debug;

use binverse::error::BinverseError;
use binverse::serialize::{Deserialize, Serialize, SizeBytes, SizedDeserialize, SizedSerialize};
use binverse::streams::{Deserializer, Serializer};

fn reserialize_test<T: Serialize + Deserialize + PartialEq + Debug>(val: T) {
    let mut s = Serializer::new(Vec::new(), 0).unwrap();
    val.serialize(&mut s).unwrap();
    let buf = s.finish();
    let mut d = Deserializer::new(buf.as_slice()).unwrap();
    let new_val: T = d.deserialize().unwrap();
    assert_eq!(val, new_val, "{}", "value");
    assert_eq!(d.finish().len(), 0, "leftover bytes after deserialing");
}

fn reserialize_sized_test<T: SizedSerialize + SizedDeserialize + PartialEq + Debug>(
    val: T,
    sb: SizeBytes,
) {
    let mut s = Serializer::new(Vec::new(), 0).unwrap();
    s.serialize_sized(sb, &val).unwrap();
    let buf = s.finish();
    let mut d = Deserializer::new(buf.as_slice()).unwrap();
    let new_val: T = d.deserialize_sized(sb).unwrap();
    assert_eq!(val, new_val, "{}", "value");
    assert_eq!(d.finish().len(), 0, "leftover bytes after deserialing");
}

fn test_all<T>(vals: &[T])
where
    T: Serialize + Deserialize + PartialEq + Debug + Clone,
{
    for val in vals {
        reserialize_test(val.clone());
    }
}

fn some_float(x: f64) -> Option<Option<u64>> {
    Some(Some(x.to_bits()))
}

#[test]
fn reserialize_tests_primitive_serialization() {
    test_all(&(0..=u8::MAX).collect::<Vec<_>>());

    test_all(&(0..=u16::MAX).step_by(3).collect::<Vec<_>>());
    test_all(&[0, u16::MAX, u16::MAX - 1]);

    test_all(&[
        0,
        1,
        0xFF_AB_CD_EF,
        0x12_34_56_78,
        0xFF_AB_CD_EF,
        0x12_AB_CD_EF,
        u32::MAX,
        u32::MAX - 1,
    ]);

    test_all(&[
        0,
        1,
        0xFF_AB_CD_EF_12_34_56_78,
        0x12_34_56_78_00_FF_AA_BB,
        0x00_00_FF_AA_FF_AB_CD_EF,
        0x12_AB_CD_EF_34_56_78_00,
        u64::MAX,
        u64::MAX - 1,
    ]);

    test_all(&[
        0,
        1,
        0xFF_AB_CD_EF_12_34_56_78_90_36_31_57_12_68_26_18,
        0x12_34_56_78_00_FF_AA_BB_98_76_54_32_10_16_23_63,
        u128::MAX,
        u128::MAX - 1,
    ]);

    // floating point values travel as their bit patterns
    test_all(&[
        some_float(-3.0),
        some_float(5.0),
        some_float(f64::INFINITY),
        Some(None),
        None,
    ]);

    test_all(&[Some("Option string".to_owned()), Some(String::new()), None]);

    reserialize_test([1, 2, 3]);
    reserialize_test::<[i32; 0]>([]);
    reserialize_test(["".to_owned(), "ABCD".to_owned()]);

    let string = "A random example string";
    reserialize_sized_test(string.to_owned(), SizeBytes::One);
    reserialize_sized_test(string.to_owned(), SizeBytes::Two);
    reserialize_sized_test(string.to_owned(), SizeBytes::Four);
    reserialize_sized_test(string.to_owned(), SizeBytes::Eight);

    reserialize_sized_test("a".repeat(255), SizeBytes::One);

    let mut s = Serializer::new(Vec::new(), 0).unwrap();
    match s.serialize_sized(SizeBytes::One, &"a".repeat(256)).unwrap_err() {
        BinverseError::SizeExceeded { limit: SizeBytes::One, found: 256 } => (),
        err => panic!("Invalid error: {:?}", err),
    }

    // a map travels as its key/value pairs
    let map = vec![
        ("Hello".to_owned(), [1, 2, 3]),
        ("This is a map".to_owned(), [4, 5, -3]),
    ];
    reserialize_sized_test(map, SizeBytes::One);
}

#[test]
fn array_drop() {
    let mut d = Deserializer::new_no_revision([1_u8, 0, 0, 1, 1].as_slice(), 0);
    assert_eq!(
        d.deserialize::<[Option<bool>; 3]>().unwrap(),
        [Some(false), None, Some(true)]
    );

    let mut d = Deserializer::new_no_revision([0_u8, 1_u8, 1_u8, 0_u8, 1_u8, 2_u8].as_slice(), 0);
    let first_2 = d.deserialize::<[bool; 2]>().unwrap();
    assert_eq!(first_2, [false, true]);
    // fails on the fourth element, after reading three
    assert!(matches!(d.deserialize::<[bool; 4]>(), Err(BinverseError::InvalidData)));
}

fn write_vec3(s: &mut Serializer, v: &Vec3) {
    v.x.to_bits().serialize(s).unwrap();
    v.y.to_bits().serialize(s).unwrap();
    v.z.to_bits().serialize(s).unwrap();
}

fn read_vec3(d: &mut Deserializer) -> Result<Vec3, BinverseError> {
    Ok(Vec3 {
        x: f32::from_bits(d.deserialize()?),
        y: f32::from_bits(d.deserialize()?),
        z: f32::from_bits(d.deserialize()?),
    })
}

#[derive(PartialEq, Debug, Clone, Default)]
struct Vec3 {
    x: f32,
    y: f32,
    z: f32,
}

#[derive(PartialEq, Debug, Clone)]
struct Example1 {
    position: Vec3,
    name: String,
    alive: bool,
}

#[test]
fn structs() {
    for v in [
        Vec3 { x: 1354.124, y: -124.32, z: 124.12 },
        Vec3 { x: f32::MAX, y: 0.0, z: 0.0 },
    ] {
        let mut s = Serializer::new(Vec::new(), 0).unwrap();
        write_vec3(&mut s, &v);
        let buf = s.finish();
        let mut d = Deserializer::new(buf.as_slice()).unwrap();
        assert_eq!(read_vec3(&mut d).unwrap(), v);
        assert_eq!(d.finish().len(), 0);
    }

    for e in [
        Example1 {
            position: Vec3 { x: 123.4, y: -1.0, z: 5.4 },
            name: String::from("Player Entity"),
            alive: true,
        },
        Example1 {
            position: Vec3 { x: 3543.4, y: 3.0, z: std::f32::consts::PI },
            name: format!("An entity with a very long name: {}", "VeryLongName".repeat(10000)),
            alive: false,
        },
    ] {
        let mut s = Serializer::new(Vec::new(), 0).unwrap();
        write_vec3(&mut s, &e.position);
        e.name.serialize(&mut s).unwrap();
        e.alive.serialize(&mut s).unwrap();
        let buf = s.finish();
        let mut d = Deserializer::new(buf.as_slice()).unwrap();
        let back = Example1 {
            position: read_vec3(&mut d).unwrap(),
            name: d.deserialize().unwrap(),
            alive: d.deserialize().unwrap(),
        };
        assert_eq!(back, e);
        assert_eq!(d.finish().len(), 0);
    }

    // a unit struct writes nothing
    let s = Serializer::new(Vec::new(), 0).unwrap();
    let buf = s.finish();
    let d = Deserializer::new(buf.as_slice()).unwrap();
    assert_eq!(d.finish().len(), 0);

    for x in [1252.135_f32, -352.10, 124.21, 1294.65, f32::INFINITY] {
        reserialize_test(x.to_bits());
        let mut s = Serializer::new(Vec::new(), 0).unwrap();
        x.to_bits().serialize(&mut s).unwrap();
        let buf = s.finish();
        let mut d = Deserializer::new(buf.as_slice()).unwrap();
        assert_eq!(f32::from_bits(d.deserialize().unwrap()), x);
    }
}
