use lattice_db::errors::LatticeError;
use lattice_db::utils::values::{tag_digest, tag_number, Primitive, Value};

const UINT_TAG: u64 = 1 << 56;
const TEXT_TAG: u64 = 2 << 56;
const LOW_56: u64 = 0x00FF_FFFF_FFFF_FFFF;

#[test]
fn verify_accepts_56_bit_numbers_and_text() {
    assert!(Primitive::UInt(0).verify().is_ok());
    assert!(Primitive::UInt(LOW_56).verify().is_ok());
    assert!(Primitive::Text("any text".to_string()).verify().is_ok());
    assert!(Primitive::Text(String::new()).verify().is_ok());
}

#[test]
fn verify_refuses_numbers_over_56_bits() {
    match Primitive::UInt(1 << 56).verify() {
        Err(LatticeError::NumberTooBig(message)) => assert_eq!(message, "72057594037927936"),
        other => panic!("unexpected {:?}", other),
    }
    match Primitive::UInt(u64::MAX).verify() {
        Err(LatticeError::NumberTooBig(message)) => assert_eq!(message, "18446744073709551615"),
        other => panic!("unexpected {:?}", other),
    }
}

#[test]
fn hash_of_number_is_the_number_under_its_tag() {
    assert_eq!(Primitive::UInt(0).hash(), UINT_TAG);
    assert_eq!(Primitive::UInt(5).hash(), UINT_TAG | 5);
    assert_eq!(Primitive::UInt(LOW_56).hash(), UINT_TAG | LOW_56);
    assert_eq!(Primitive::UInt(5).hash(), 0x0100_0000_0000_0005);
}

#[test]
fn hash_of_oversized_number_keeps_the_low_bits() {
    assert_eq!(Primitive::UInt((1 << 56) | 7).hash(), UINT_TAG | 7);
    assert_eq!(Primitive::UInt(u64::MAX).hash(), UINT_TAG | LOW_56);
}

#[test]
fn hash_of_text_is_its_rapidhash_under_the_text_tag() {
    for text in ["", "celebrity", "retired", "héllo wörld"] {
        let expected = (rapidhash::v3::rapidhash_v3(text.as_bytes()) & LOW_56) | TEXT_TAG;
        assert_eq!(Primitive::Text(text.to_string()).hash(), expected);
        assert_eq!(Primitive::Text(text.to_string()).hash() >> 56, 2);
    }
    assert_ne!(
        Primitive::Text("celebrity".to_string()).hash(),
        Primitive::Text("retired".to_string()).hash()
    );
}

#[test]
fn number_hashes_do_not_collide_and_differ_from_text_hashes() {
    let numbers = [0u64, 1, 2, 255, 256, 1 << 40, LOW_56];
    for a in numbers {
        for b in numbers {
            assert_eq!(Primitive::UInt(a).hash() == Primitive::UInt(b).hash(), a == b);
        }
        assert_eq!(Primitive::UInt(a).hash() >> 56, 1);
        assert_ne!(Primitive::UInt(a).hash(), Primitive::Text(a.to_string()).hash());
    }
}

#[test]
fn values_convert_to_primitives() {
    assert_eq!(7u64.to_primitive(), Primitive::UInt(7));
    assert_eq!(7u32.to_primitive(), Primitive::UInt(7));
    assert_eq!(7u16.to_primitive(), Primitive::UInt(7));
    assert_eq!(7u8.to_primitive(), Primitive::UInt(7));
    assert_eq!(u32::MAX.to_primitive(), Primitive::UInt(4294967295));
    assert_eq!("seven".to_primitive(), Primitive::Text("seven".to_string()));
}

#[test]
fn primitives_compare_and_clone_by_content() {
    let text = Primitive::Text("a".to_string());
    assert_eq!(text.clone(), text);
    assert_ne!(text, Primitive::Text("b".to_string()));
    assert_ne!(Primitive::UInt(1), Primitive::Text("1".to_string()));
    assert_eq!(Primitive::UInt(9).clone(), Primitive::UInt(9));
    assert_ne!(Primitive::UInt(9), Primitive::UInt(10));
}

#[test]
fn digests_and_numbers_are_tagged() {
    assert_eq!(tag_digest(0), 0x0200_0000_0000_0000);
    assert_eq!(tag_digest(u64::MAX), 0x02FF_FFFF_FFFF_FFFF);
    assert_eq!(tag_digest(0xABCD_0000_0000_0012), 0x02CD_0000_0000_0012);
    assert_eq!(tag_number(0), 0x0100_0000_0000_0000);
    assert_eq!(tag_number(0x12), 0x0100_0000_0000_0012);
    assert_eq!(tag_number(u64::MAX), 0x01FF_FFFF_FFFF_FFFF);
}
