use bitfield::codec::FieldCodec;
use bitfield::storage::BitStorage;

#[test]
fn one_and_seven_bits_pack_into_d5() {
    let mut storage = [0u8; 1];
    FieldCodec::set(&mut storage, 0, 1, 1);
    FieldCodec::set(&mut storage, 1, 7, 0b1010101);
    assert_eq!(storage, [0xD5]);
    assert_eq!(FieldCodec::get(&storage, 0, 1), 1);
    assert_eq!(FieldCodec::get(&storage, 1, 7), 85);
}

#[test]
fn three_three_two_bits_pack_into_ae() {
    let mut storage = [0u8; 1];
    FieldCodec::set(&mut storage, 0, 3, 5);
    FieldCodec::set(&mut storage, 3, 3, 3);
    FieldCodec::set(&mut storage, 6, 2, 2);
    assert_eq!(storage, [0xAE]);
    assert_eq!(FieldCodec::get(&storage, 0, 3), 5);
    assert_eq!(FieldCodec::get(&storage, 3, 3), 3);
    assert_eq!(FieldCodec::get(&storage, 6, 2), 2);
}

#[test]
fn bit_zero_is_the_most_significant_bit() {
    let mut storage = [0u8; 2];
    FieldCodec::set(&mut storage, 0, 1, 1);
    assert_eq!(storage, [0x80, 0x00]);
    FieldCodec::set(&mut storage, 15, 1, 1);
    assert_eq!(storage, [0x80, 0x01]);
    assert_eq!(FieldCodec::get(&storage, 0, 1), 1);
    assert_eq!(FieldCodec::get(&storage, 1, 1), 0);
    assert_eq!(FieldCodec::get(&storage, 15, 1), 1);
}

#[test]
fn field_across_a_byte_boundary_is_big_endian() {
    let mut storage = [0u8; 3];
    FieldCodec::set(&mut storage, 4, 12, 0xABC);
    assert_eq!(storage, [0x0A, 0xBC, 0x00]);
    assert_eq!(FieldCodec::get(&storage, 4, 12), 0xABC);
    assert_eq!(FieldCodec::get(&storage, 0, 16), 0x0ABC);
    assert_eq!(FieldCodec::get(&storage, 4, 4), 0xA);
    assert_eq!(FieldCodec::get(&storage, 8, 8), 0xBC);
    assert_eq!(FieldCodec::get(&storage, 6, 5), 0b10101);
}

#[test]
fn whole_bytes_are_copied() {
    let mut storage = [0u8; 4];
    FieldCodec::set(&mut storage, 8, 16, 0x1234);
    assert_eq!(storage, [0x00, 0x12, 0x34, 0x00]);
    assert_eq!(FieldCodec::get(&storage, 8, 16), 0x1234);
    assert_eq!(FieldCodec::get(&storage, 0, 32), 0x0012_3400);
}

#[test]
fn width_zero_reads_zero_and_writes_nothing() {
    let mut storage = [0x5Au8; 2];
    FieldCodec::set(&mut storage, 5, 0, 0xFF);
    assert_eq!(storage, [0x5A, 0x5A]);
    assert_eq!(FieldCodec::get(&storage, 5, 0), 0);
    assert_eq!(FieldCodec::get(&storage, 16, 0), 0);
}

#[test]
fn full_width_field_at_an_odd_offset() {
    let value: u128 = 0xFEDC_BA98_7654_3210_0123_4567_89AB_CDEF;
    let mut storage = [0u8; 17];
    FieldCodec::set(&mut storage, 3, 128, value);
    assert_eq!(FieldCodec::get(&storage, 3, 128), value);
    assert_eq!(FieldCodec::get(&storage, 0, 3), 0);
    assert_eq!(FieldCodec::get(&storage, 131, 5), 0);
    assert_eq!(storage[0], 0x1F);
    assert_eq!(storage[16], 0xEF << 5);
}

#[test]
fn largest_value_of_every_width_round_trips() {
    let mut width: usize = 1;
    while width <= 128 {
        let value: u128 = if width == 128 { u128::MAX } else { (1u128 << width) - 1 };
        let mut start: usize = 0;
        while start < 9 {
            let mut storage = [0u8; 18];
            FieldCodec::set(&mut storage, start, width, value);
            assert_eq!(FieldCodec::get(&storage, start, width), value);
            assert_eq!(FieldCodec::get(&storage, 0, start), 0);
            assert_eq!(FieldCodec::get(&storage, start + width, 144 - start - width), 0);
            start += 1;
        }
        width += 1;
    }
}

#[test]
fn mixed_values_of_every_width_round_trip() {
    let pattern: u128 = 0xA5C3_0F1E_2D4B_6978_8796_B4D2_E1F0_3C5A;
    let mut width: usize = 1;
    while width <= 128 {
        let value: u128 = if width == 128 { pattern } else { pattern & ((1u128 << width) - 1) };
        let mut start: usize = 0;
        while start < 17 {
            let mut storage = [0u8; 19];
            FieldCodec::set(&mut storage, start, width, value);
            assert_eq!(FieldCodec::get(&storage, start, width), value);
            start += 1;
        }
        width += 1;
    }
}

#[test]
fn bits_outside_the_field_stay() {
    let mut storage = [0xFFu8, 0x00, 0xFF];
    FieldCodec::set(&mut storage, 10, 4, 0b1001);
    assert_eq!(storage, [0xFF, 0b0010_0100, 0xFF]);
}

#[test]
fn only_the_low_bits_of_a_value_are_written() {
    let mut storage = [0u8; 2];
    FieldCodec::set(&mut storage, 3, 3, 0xFD);
    assert_eq!(storage, [0b0001_0100, 0x00]);
    assert_eq!(FieldCodec::get(&storage, 3, 3), 0b101);
    let mut other = [0u8; 2];
    FieldCodec::set(&mut other, 6, 4, 0x1F3);
    assert_eq!(other, [0b0000_0000, 0b1100_0000]);
}

#[test]
fn writing_joins_with_what_the_field_holds() {
    let mut storage = [0u8; 1];
    FieldCodec::set(&mut storage, 2, 4, 0b0101);
    FieldCodec::set(&mut storage, 2, 4, 0b0011);
    assert_eq!(FieldCodec::get(&storage, 2, 4), 0b0111);
}

#[test]
fn storage_starts_zero_filled() {
    let storage = BitStorage::new(24).unwrap();
    assert_eq!(storage.as_bytes(), &[0u8, 0, 0]);
    assert_eq!(storage.len(), 3);
    let empty = BitStorage::new(0).unwrap();
    assert_eq!(empty.len(), 0);
}

#[test]
fn storage_of_a_ragged_size_is_refused() {
    assert_eq!(
        BitStorage::new(7).err(),
        Some(bitfield::error::LayoutError::NotByteAligned { remainder: 7 })
    );
    assert_eq!(
        BitStorage::new(17).err(),
        Some(bitfield::error::LayoutError::NotByteAligned { remainder: 1 })
    );
}

#[test]
fn storage_reads_back_what_was_written() {
    let mut storage = BitStorage::new(32).unwrap();
    storage.set(5, 9, 0x155);
    storage.set(14, 18, 0x2_ABCD);
    assert_eq!(storage.get(5, 9), 0x155);
    assert_eq!(storage.get(14, 18), 0x2_ABCD);
    assert_eq!(storage.get(0, 5), 0);
    assert_eq!(storage.as_bytes(), &[0x05, 0x56, 0xAB, 0xCD]);
}
