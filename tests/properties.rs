use binverse::error::{BinverseError, IoErrorKind};
use binverse::revision::{deserialize_field, serialize_field, Lifecycle};
use binverse::serialize::{Serialize, SizeBytes};
use binverse::streams::{Deserializer, Serializer};
use binverse::varint::{self, VarInt};

const EOF: BinverseError = BinverseError::IO(IoErrorKind::UnexpectedEof);

#[test]
fn varint_boundary_values() {
    let cases: [(u64, Vec<u8>); 5] = [
        (0, vec![0x00]),
        (1, vec![0x01]),
        (300, vec![0xAC, 0x02]),
        (1 << 63, vec![0x80, 0x80, 0x80, 0x80, 0x80, 0x80, 0x80, 0x80, 0x80, 0x01]),
        (u64::MAX, vec![0xFF, 0xFF, 0xFF, 0xFF, 0xFF, 0xFF, 0xFF, 0xFF, 0xFF, 0x01]),
    ];
    for (x, bytes) in cases {
        let mut w = Vec::new();
        varint::write(x, &mut w);
        assert_eq!(w, bytes);
        assert_eq!(varint::read(&bytes).unwrap(), (x, bytes.len()));
    }
}

#[test]
fn varint_overflow_cases() {
    let mut tenth_too_big = vec![0x80_u8; 9];
    tenth_too_big.push(0x02);
    assert_eq!(varint::read(&tenth_too_big), Err(BinverseError::VarIntOverflow));

    let mut tenth_max = vec![0xFF_u8; 9];
    tenth_max.push(0x7F);
    assert_eq!(varint::read(&tenth_max), Err(BinverseError::VarIntOverflow));

    let too_long = vec![0x80_u8; 11];
    assert_eq!(varint::read(&too_long), Err(BinverseError::VarIntOverflow));

    assert_eq!(varint::read(&[0x80, 0x80]), Err(EOF));
}

#[test]
fn varint_wrapper_type() {
    let bytes = binverse::write_no_revision(Vec::new(), VarInt(300)).unwrap();
    assert_eq!(bytes, vec![0xAC, 0x02]);
    let (v, rest) = binverse::read_no_revision::<VarInt>(&bytes, 0).unwrap();
    assert_eq!(v, VarInt(300));
    assert_eq!(rest.len(), 0);
}

#[test]
fn size_policy_rejection() {
    let mut s = Serializer::new_no_revision(Vec::new(), 0);
    let long = vec![7_u8; 256];
    match s.serialize_sized(SizeBytes::One, &long) {
        Err(BinverseError::SizeExceeded { limit: SizeBytes::One, found: 256 }) => (),
        other => panic!("unexpected: {:?}", other),
    }
    assert_eq!(s.finish().len(), 0);

    let mut s = Serializer::new_no_revision(Vec::new(), 0);
    let fits = vec![7_u8; 255];
    s.serialize_sized(SizeBytes::One, &fits).unwrap();
    let out = s.finish();
    assert_eq!(out.len(), 256);
    assert_eq!(out[0], 255);

    let mut s = Serializer::new_no_revision(Vec::new(), 0);
    s.serialize_sized(SizeBytes::Two, &vec![1_u16, 2, 3]).unwrap();
    assert_eq!(s.finish(), vec![3, 0, 1, 0, 2, 0, 3, 0]);

    let mut s = Serializer::new_no_revision(Vec::new(), 0);
    match s.write_size(SizeBytes::Two, 65536) {
        Err(BinverseError::SizeExceeded { limit: SizeBytes::Two, found: 65536 }) => (),
        other => panic!("unexpected: {:?}", other),
    }
    s.write_size(SizeBytes::Var, 65536).unwrap();
    assert_eq!(s.finish(), vec![0x80, 0x80, 0x04]);
}

#[test]
fn size_bytes_names_and_limits() {
    assert_eq!(SizeBytes::One.to_str(), "One");
    assert_eq!(SizeBytes::Two.to_str(), "Two");
    assert_eq!(SizeBytes::Four.to_str(), "Four");
    assert_eq!(SizeBytes::Eight.to_str(), "Eight");
    assert_eq!(SizeBytes::Var.to_str(), "Var");
    assert_eq!(SizeBytes::One.maximum(), 255);
    assert_eq!(SizeBytes::Two.maximum(), 65535);
    assert_eq!(SizeBytes::Four.maximum(), 4294967295);
    assert_eq!(SizeBytes::Eight.maximum(), u64::MAX);
    assert_eq!(SizeBytes::Var.maximum(), u64::MAX);
}

fn write_record(revision: u32, b: &String, d: u8) -> Vec<u8> {
    let b_life = Lifecycle::always().removed(1).unwrap();
    let d_life = Lifecycle::always().added(1).unwrap();
    let mut s = Serializer::new(Vec::new(), revision).unwrap();
    serialize_field(&mut s, &b_life, b).unwrap();
    serialize_field(&mut s, &d_life, &d).unwrap();
    s.finish()
}

fn read_record(bytes: &[u8]) -> (String, u8, usize) {
    let b_life = Lifecycle::always().removed(1).unwrap();
    let d_life = Lifecycle::always().added(1).unwrap();
    let mut d = Deserializer::new(bytes).unwrap();
    let b = deserialize_field(&mut d, &b_life, String::new()).unwrap();
    let dd = deserialize_field(&mut d, &d_life, 0_u8).unwrap();
    (b, dd, d.finish().len())
}

#[test]
fn revision_gap_fill() {
    let at0 = write_record(0, &"wire".to_owned(), 9);
    assert_eq!(at0, vec![0, 0, 0, 0, 4, b'w', b'i', b'r', b'e']);
    assert_eq!(read_record(&at0), ("wire".to_owned(), 0, 0));

    let at1 = write_record(1, &"wire".to_owned(), 9);
    assert_eq!(at1, vec![1, 0, 0, 0, 9]);
    assert_eq!(read_record(&at1), (String::new(), 9, 0));
}

#[test]
fn lifecycle_declarations() {
    assert!(Lifecycle::always().added(2).unwrap().added(3).is_none());
    assert!(Lifecycle::always().removed(2).unwrap().removed(3).is_none());
    assert!(Lifecycle::always().removed(0).is_none());
    assert!(Lifecycle::always().added(3).unwrap().removed(3).is_none());
    assert!(Lifecycle::always().removed(2).unwrap().added(2).is_none());

    let x = Lifecycle::always().added(2).unwrap();
    let y = Lifecycle::always().removed(1).unwrap();
    let z = Lifecycle::always();
    assert_eq!((x.is_present(0), y.is_present(0), z.is_present(0)), (false, true, true));
    assert_eq!((x.is_present(5), y.is_present(5), z.is_present(5)), (true, false, true));
}

#[test]
fn partial_array_failure() {
    let mut d = Deserializer::new_no_revision(&[1, 0, 1, 7], 0);
    assert_eq!(d.deserialize::<[bool; 4]>(), Err(BinverseError::InvalidData));
    let mut d = Deserializer::new_no_revision(&[1, 0], 0);
    assert_eq!(d.deserialize::<[bool; 4]>(), Err(EOF));
}

#[test]
fn string_utf8_rejection() {
    let mut d = Deserializer::new_no_revision(&[2, 0xC3, 0x28], 0);
    assert_eq!(d.deserialize_sized::<String>(SizeBytes::One), Err(BinverseError::InvalidUTF8));
    let mut d = Deserializer::new_no_revision(&[2, 0xFF, 0xFE], 0);
    assert_eq!(d.deserialize::<String>(), Err(BinverseError::InvalidUTF8));

    let text = "\u{e4}\u{f6}\u{fc} \u{1f603}".to_owned();
    let bytes = binverse::write_no_revision(Vec::new(), text.clone()).unwrap();
    assert_eq!(bytes[0] as usize, text.len());
    let (back, _) = binverse::read_no_revision::<String>(&bytes, 0).unwrap();
    assert_eq!(back, text);
}

#[test]
fn end_to_end_scenario() {
    let mut s = Serializer::new(Vec::new(), 0).unwrap();
    5.4_f32.to_bits().serialize(&mut s).unwrap();
    "This is a string".to_owned().serialize(&mut s).unwrap();
    12345_u32.serialize(&mut s).unwrap();
    let bytes = s.finish();

    let always = Lifecycle::always();
    let b_life = Lifecycle::always().removed(1).unwrap();
    let d_life = Lifecycle::always().added(1).unwrap();
    let mut d = Deserializer::new(&bytes).unwrap();
    assert_eq!(d.revision(), 0);
    let a = f32::from_bits(deserialize_field(&mut d, &always, 0).unwrap());
    let _b: String = deserialize_field(&mut d, &b_life, String::new()).unwrap();
    let c: u32 = deserialize_field(&mut d, &always, 0).unwrap();
    let dd: u8 = deserialize_field(&mut d, &d_life, 0).unwrap();
    assert_eq!((a, c, dd), (5.4, 12345, 0));
    assert_eq!(d.finish().len(), 0);
}

#[test]
fn fixed_width_encodings() {
    assert_eq!(binverse::write(Vec::new(), 1_u16, 258).unwrap(), vec![2, 1, 0, 0, 1, 0]);
    assert_eq!(binverse::write_no_revision(Vec::new(), 0x01020304_u32).unwrap(), vec![4, 3, 2, 1]);
    assert_eq!(binverse::write_no_revision(Vec::new(), -2_i16).unwrap(), vec![0xFE, 0xFF]);
    assert_eq!(binverse::write_no_revision(Vec::new(), true).unwrap(), vec![1]);
    assert_eq!(binverse::write_no_revision(Vec::new(), Some(3_u8)).unwrap(), vec![1, 3]);
    assert_eq!(binverse::write_no_revision(Vec::new(), None::<u8>).unwrap(), vec![0]);
    assert_eq!(binverse::write_no_revision(Vec::new(), (1_u8, 2_u16)).unwrap(), vec![1, 2, 0]);

    let (v, rest) = binverse::read::<u32>(&[7, 0, 0, 0, 4, 3, 2, 1, 9]).unwrap();
    assert_eq!((v, rest), (0x01020304, &[9_u8][..]));
}

#[test]
fn error_variants() {
    assert!(matches!(Deserializer::new(&[1, 2, 3]), Err(e) if e == EOF));
    assert_eq!(binverse::read_no_revision::<u32>(&[1, 2, 3], 0).map(|p| p.0), Err(EOF));
    assert_eq!(binverse::read_no_revision::<bool>(&[2], 0).map(|p| p.0), Err(BinverseError::InvalidData));
    assert_eq!(binverse::read_no_revision::<Option<u8>>(&[2, 0], 0).map(|p| p.0), Err(BinverseError::InvalidData));
    assert_eq!(binverse::read_no_revision::<Vec<u8>>(&[3, 1, 2], 0).map(|p| p.0), Err(EOF));

    let mut d = Deserializer::new_no_revision(&[5, 6, 7], 0);
    let mut buf = [0_u8; 2];
    d.read(&mut buf).unwrap();
    assert_eq!(buf, [5, 6]);
    let mut big = [0_u8; 2];
    assert_eq!(d.read(&mut big), Err(EOF));
    assert_eq!(d.finish(), &[7]);

    let mut d = Deserializer::new_no_revision(&[0x80, 0x01, 0xFF], 0);
    assert_eq!(d.read_size(SizeBytes::Var), Ok(128));
    assert_eq!(d.read_size(SizeBytes::Two), Err(EOF));
}

#[test]
fn borrowed_and_tuple_values() {
    let from_str = binverse::write_no_revision(Vec::new(), "abc").unwrap();
    let from_string = binverse::write_no_revision(Vec::new(), "abc".to_owned()).unwrap();
    assert_eq!(from_str, vec![3, b'a', b'b', b'c']);
    assert_eq!(from_str, from_string);

    let items = [1_u16, 2];
    let from_slice = binverse::write_no_revision(Vec::new(), &items[..]).unwrap();
    assert_eq!(from_slice, vec![2, 1, 0, 2, 0]);
    let (back, _) = binverse::read_no_revision::<Vec<u16>>(&from_slice, 0).unwrap();
    assert_eq!(back, vec![1, 2]);

    let mut s = Serializer::new_no_revision(Vec::new(), 0);
    s.serialize_sized(SizeBytes::Two, &"hi").unwrap();
    assert_eq!(s.finish(), vec![2, 0, b'h', b'i']);

    let triple = (true, 7_i8, "x".to_owned());
    let bytes = binverse::write_no_revision(Vec::new(), triple.clone()).unwrap();
    assert_eq!(bytes, vec![1, 7, 1, b'x']);
    let (back, rest) = binverse::read_no_revision::<(bool, i8, String)>(&bytes, 0).unwrap();
    assert_eq!((back, rest.len()), (triple, 0));
}

#[test]
fn width_declarations() {
    assert_eq!(SizeBytes::from_width(1), Some(SizeBytes::One));
    assert_eq!(SizeBytes::from_width(2), Some(SizeBytes::Two));
    assert_eq!(SizeBytes::from_width(4), Some(SizeBytes::Four));
    assert_eq!(SizeBytes::from_width(8), Some(SizeBytes::Eight));
    assert_eq!(SizeBytes::from_width(3), None);
    assert_eq!(SizeBytes::from_width(0), None);
}
