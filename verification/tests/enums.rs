use bitfield::checks::BitSizeMod;
use bitfield::enum_codec::{packed_width, width_and_reach, EnumCodec, EnumError};
use bitfield::error::LayoutError;
use bitfield::gen_bit_type::{gen_data_type, BTypeGenerator, BitType, DataType};
use bitfield::specifier::{get_enum, round_trip, set_enum};
use bitfield::{BitfieldSpecifier, Bits, Specifier};

#[test]
fn packed_width_is_the_ceiling_of_the_logarithm() {
    let counts = [0usize, 1, 2, 3, 4, 5, 7, 8, 9, 16, 17, 255, 256, 257];
    let widths = [0usize, 0, 1, 2, 2, 3, 3, 3, 4, 4, 5, 8, 8, 9];
    for (count, width) in counts.iter().zip(widths.iter()) {
        assert_eq!(packed_width(*count), *width);
    }
    assert_eq!(packed_width(usize::MAX), usize::BITS as usize);
    assert_eq!(width_and_reach(5), (3, 8));
    assert_eq!(width_and_reach(1), (0, 1));
}

#[test]
fn four_variants_take_two_bits() {
    let codec = EnumCodec::new(vec![0, 1, 2, 3]).ok().unwrap();
    assert_eq!(codec.bits(), 2);
    assert_eq!(codec.variant_count(), 4);
}

#[test]
fn three_variants_are_rejected() {
    assert_eq!(EnumCodec::implicit(3).err(), Some(EnumError::NotPowerOfTwo { count: 3 }));
    assert_eq!(EnumCodec::new(vec![0, 1, 2]).err(), Some(EnumError::NotPowerOfTwo { count: 3 }));
    assert_eq!(EnumCodec::new(vec![]).err(), Some(EnumError::NotPowerOfTwo { count: 0 }));
    assert_eq!(EnumCodec::implicit(6).err(), Some(EnumError::NotPowerOfTwo { count: 6 }));
}

#[test]
fn count_is_checked_before_the_discriminants() {
    assert_eq!(EnumCodec::new(vec![9, 9, 9]).err(), Some(EnumError::NotPowerOfTwo { count: 3 }));
}

#[test]
fn discriminant_beyond_the_width_is_rejected() {
    assert_eq!(
        EnumCodec::new(vec![0, 1, 4, 5]).err(),
        Some(EnumError::DiscriminantOutOfRange { variant: 2 })
    );
    assert_eq!(
        EnumCodec::new(vec![1]).err(),
        Some(EnumError::DiscriminantOutOfRange { variant: 0 })
    );
    assert!(EnumCodec::new(vec![3, 1, 0, 2]).is_ok());
}

#[test]
fn implicit_discriminants_are_positions() {
    let codec = EnumCodec::implicit(8).ok().unwrap();
    assert_eq!(codec.bits(), 3);
    let mut variant = 0;
    while variant < 8 {
        assert_eq!(codec.raw_value(variant), variant as u128);
        variant += 1;
    }
    let single = EnumCodec::implicit(1).ok().unwrap();
    assert_eq!(single.bits(), 0);
    assert_eq!(single.raw_value(0), 0);
}

#[test]
fn every_variant_round_trips() {
    let codec = EnumCodec::new(vec![2, 0, 3, 1]).ok().unwrap();
    let mut variant = 0;
    while variant < 4 {
        assert_eq!(codec.from_raw(codec.raw_value(variant)), variant);
        assert_eq!(codec.try_from_raw(codec.raw_value(variant)), Some(variant));
        variant += 1;
    }
    assert_eq!(codec.raw_value(0), 2);
    assert_eq!(codec.from_raw(3), 2);
}

#[test]
fn unknown_raw_value_is_not_found() {
    let codec = EnumCodec::new(vec![0, 0, 1, 1]).ok().unwrap();
    assert_eq!(codec.try_from_raw(2), None);
    assert_eq!(codec.try_from_raw(3), None);
    assert_eq!(codec.try_from_raw(1), Some(2));
    assert_eq!(codec.try_from_raw(0), Some(0));
}

#[test]
fn enum_field_is_stored_by_discriminant() {
    let codec = EnumCodec::new(vec![2, 0, 3, 1]).ok().unwrap();
    let mut storage = [0u8; 1];
    codec.set_data(&mut storage, 3, 2);
    assert_eq!(storage, [0b0001_1000]);
    assert_eq!(codec.get_data(&storage, 3), 2);
    assert_eq!(codec.get_data(&storage, 0), 1);
    assert_eq!(codec.get_data(&storage, 4), 0);
}

#[test]
fn backing_type_is_the_smallest_that_fits() {
    assert_eq!(gen_data_type(1), Ok(DataType::U8));
    assert_eq!(gen_data_type(8), Ok(DataType::U8));
    assert_eq!(gen_data_type(9), Ok(DataType::U16));
    assert_eq!(gen_data_type(16), Ok(DataType::U16));
    assert_eq!(gen_data_type(17), Ok(DataType::U32));
    assert_eq!(gen_data_type(32), Ok(DataType::U32));
    assert_eq!(gen_data_type(33), Ok(DataType::U64));
    assert_eq!(gen_data_type(64), Ok(DataType::U64));
    assert_eq!(gen_data_type(65), Ok(DataType::U128));
    assert_eq!(gen_data_type(128), Ok(DataType::U128));
    assert_eq!(DataType::U8.bits(), 8);
    assert_eq!(DataType::U16.bits(), 16);
    assert_eq!(DataType::U32.bits(), 32);
    assert_eq!(DataType::U64.bits(), 64);
    assert_eq!(DataType::U128.bits(), 128);
}

#[test]
fn width_without_backing_type_is_refused() {
    assert_eq!(gen_data_type(0), Err(LayoutError::UnsupportedWidth { width: 0 }));
    assert_eq!(gen_data_type(129), Err(LayoutError::UnsupportedWidth { width: 129 }));
    assert_eq!(gen_data_type(usize::MAX), Err(LayoutError::UnsupportedWidth { width: usize::MAX }));
}

#[test]
fn generator_lists_the_range() {
    let types = BTypeGenerator::new(1, 128).bit_types().ok().unwrap();
    assert_eq!(types.len(), 127);
    assert_eq!(types[0], BitType { bits: 1, data_type: DataType::U8 });
    assert_eq!(types[8], BitType { bits: 9, data_type: DataType::U16 });
    assert_eq!(types[126], BitType { bits: 127, data_type: DataType::U128 });
    let few = BTypeGenerator { start: 31, end: 34 }.bit_types().ok().unwrap();
    assert_eq!(
        few,
        vec![
            BitType { bits: 31, data_type: DataType::U32 },
            BitType { bits: 32, data_type: DataType::U32 },
            BitType { bits: 33, data_type: DataType::U64 },
        ]
    );
}

#[test]
fn generator_of_an_empty_range_lists_nothing() {
    assert_eq!(BTypeGenerator::new(5, 5).bit_types(), Ok(vec![]));
    assert_eq!(BTypeGenerator::new(9, 2).bit_types(), Ok(vec![]));
    assert_eq!(BTypeGenerator::new(500, 2).bit_types(), Ok(vec![]));
}

#[test]
fn generator_stops_at_the_first_bad_width() {
    assert_eq!(
        BTypeGenerator::new(0, 4).bit_types(),
        Err(LayoutError::UnsupportedWidth { width: 0 })
    );
    assert_eq!(
        BTypeGenerator::new(120, 140).bit_types(),
        Err(LayoutError::UnsupportedWidth { width: 129 })
    );
}

#[test]
fn remainder_marker_passes_only_for_zero() {
    assert_eq!(BitSizeMod::<0>::check(), Ok(()));
    assert_eq!(BitSizeMod::<7>::check(), Err(LayoutError::NotByteAligned { remainder: 7 }));
    assert_eq!(BitSizeMod::<3>::check(), Err(LayoutError::NotByteAligned { remainder: 3 }));
}

#[test]
fn flag_is_one_bit() {
    assert_eq!(<bool as Specifier>::BITS, 1);
    let mut storage = [0u8; 1];
    <bool as Specifier>::set_data(&mut storage, 2, 1, true);
    <bool as Specifier>::set_data(&mut storage, 5, 1, false);
    assert_eq!(storage, [0b0010_0000]);
    assert!(<bool as Specifier>::get_data(&storage, 2, 1));
    assert!(!<bool as Specifier>::get_data(&storage, 5, 1));
    assert!(<bool as Specifier>::get_data(&storage, 1, 2));
    assert!(!<bool as Specifier>::get_data(&storage, 2, 2));
}

#[test]
fn unsigned_field_type_reads_and_writes_its_width() {
    assert_eq!(<Bits<24> as Specifier>::BITS, 24);
    let mut storage = [0u8; 4];
    <Bits<24> as Specifier>::set_data(&mut storage, 4, 24, 0xABCDEF);
    assert_eq!(storage, [0x0A, 0xBC, 0xDE, 0xF0]);
    assert_eq!(<Bits<24> as Specifier>::get_data(&storage, 4, 24), 0xABCDEF);
}

#[test]
fn typed_enum_round_trips() {
    for x in [false, true] {
        assert_eq!(<bool as BitfieldSpecifier>::from_raw_value(x.raw_value()), x);
        assert_eq!(round_trip(&x), x);
    }
    assert_eq!(true.raw_value(), 1);
    assert_eq!(false.raw_value(), 0);
}

#[test]
fn typed_enum_field_is_stored_by_discriminant() {
    let mut storage = [0u8; 1];
    set_enum(&mut storage, 1, 1, &true);
    set_enum(&mut storage, 6, 2, &true);
    set_enum(&mut storage, 3, 1, &false);
    assert_eq!(storage, [0b0100_0001]);
    assert!(get_enum::<bool>(&storage, 1, 1));
    assert!(!get_enum::<bool>(&storage, 3, 1));
    assert!(get_enum::<bool>(&storage, 6, 2));
    assert!(!get_enum::<bool>(&storage, 0, 1));
}
