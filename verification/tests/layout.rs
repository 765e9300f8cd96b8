use bitfield::error::LayoutError;
use bitfield::layout::{plan_layout, FieldDescriptor};
use bitfield::record::Record;
use bitfield::validate::{
    check_alignment, check_declared_widths, check_discriminants, total_remainder, validate_layout,
};

#[test]
fn offsets_are_prefix_sums() {
    let layout = plan_layout(&[1, 3, 4, 24]).unwrap();
    assert_eq!(layout.total_bits, 32);
    assert_eq!(
        layout.fields,
        vec![
            FieldDescriptor { bit_width: 1, start_offset: 0 },
            FieldDescriptor { bit_width: 3, start_offset: 1 },
            FieldDescriptor { bit_width: 4, start_offset: 4 },
            FieldDescriptor { bit_width: 24, start_offset: 8 },
        ]
    );
}

#[test]
fn empty_layout_has_no_bits() {
    let layout = plan_layout(&[]).unwrap();
    assert_eq!(layout.total_bits, 0);
    assert!(layout.fields.is_empty());
}

#[test]
fn zero_width_fields_share_a_start() {
    let layout = plan_layout(&[0, 5, 0, 3]).unwrap();
    assert_eq!(layout.total_bits, 8);
    let starts: Vec<usize> = layout.fields.iter().map(|f| f.start_offset).collect();
    assert_eq!(starts, vec![0, 0, 5, 5]);
}

#[test]
fn layout_that_overflows_is_not_planned() {
    assert!(plan_layout(&[usize::MAX, 1]).is_none());
    assert!(plan_layout(&[usize::MAX, 0]).is_some());
    assert!(plan_layout(&[usize::MAX / 2 + 1, usize::MAX / 2 + 1]).is_none());
}

#[test]
fn ragged_total_is_rejected() {
    assert_eq!(check_alignment(&[3, 4]), Err(LayoutError::NotByteAligned { remainder: 7 }));
    assert_eq!(check_alignment(&[3, 4, 1]), Ok(()));
    assert_eq!(check_alignment(&[]), Ok(()));
    assert_eq!(check_alignment(&[9]), Err(LayoutError::NotByteAligned { remainder: 1 }));
}

#[test]
fn remainder_survives_totals_beyond_usize() {
    assert_eq!(total_remainder(&[usize::MAX, usize::MAX]), 6);
    assert_eq!(total_remainder(&[usize::MAX, 1]), 0);
    assert_eq!(total_remainder(&[1, 7, 3]), 3);
}

#[test]
fn annotation_must_match_the_width() {
    let mut errors = Vec::new();
    check_declared_widths(&[1, 3, 4, 24], &[Some(1), None, Some(5), Some(24)], &mut errors);
    assert_eq!(errors, vec![LayoutError::WidthMismatch { field: 2, declared: 5, actual: 4 }]);
}

#[test]
fn annotations_are_checked_in_field_order_and_appended() {
    let mut errors = vec![LayoutError::TooLarge];
    check_declared_widths(&[8, 8, 8], &[Some(7), Some(8), Some(9), Some(1)], &mut errors);
    assert_eq!(
        errors,
        vec![
            LayoutError::TooLarge,
            LayoutError::WidthMismatch { field: 0, declared: 7, actual: 8 },
            LayoutError::WidthMismatch { field: 2, declared: 9, actual: 8 },
        ]
    );
    let mut none = Vec::new();
    check_declared_widths(&[8, 8], &[], &mut none);
    assert!(none.is_empty());
}

#[test]
fn discriminants_must_fit_the_packed_width() {
    let mut errors = Vec::new();
    check_discriminants(&[0, 1, 2, 4], 3, &mut errors);
    assert_eq!(errors, vec![LayoutError::DiscriminantOutOfRange { enumeration: 3, variant: 3 }]);
    let mut ok = Vec::new();
    check_discriminants(&[3, 2, 1, 0], 0, &mut ok);
    assert!(ok.is_empty());
    let mut single = Vec::new();
    check_discriminants(&[1], 0, &mut single);
    assert_eq!(single, vec![LayoutError::DiscriminantOutOfRange { enumeration: 0, variant: 0 }]);
}

#[test]
fn well_formed_record_has_no_errors() {
    let errors = validate_layout(&[1, 3, 4, 24], &[None, Some(3), None, None], &[vec![0, 1, 2, 3]]);
    assert!(errors.is_empty());
}

#[test]
fn all_three_checks_report_in_order() {
    let errors = validate_layout(
        &[3, 4],
        &[Some(3), Some(5)],
        &[vec![0, 1], vec![0, 9, 1, 8], vec![2, 0]],
    );
    assert_eq!(
        errors,
        vec![
            LayoutError::NotByteAligned { remainder: 7 },
            LayoutError::WidthMismatch { field: 1, declared: 5, actual: 4 },
            LayoutError::DiscriminantOutOfRange { enumeration: 1, variant: 1 },
            LayoutError::DiscriminantOutOfRange { enumeration: 1, variant: 3 },
            LayoutError::DiscriminantOutOfRange { enumeration: 2, variant: 0 },
        ]
    );
}

#[test]
fn record_of_one_and_seven_bits() {
    let mut record = Record::new(&[1, 7]).ok().unwrap();
    assert_eq!(record.field_count(), 2);
    assert_eq!(record.as_bytes(), &[0u8]);
    record.set(0, 1);
    record.set(1, 0b1010101);
    assert_eq!(record.as_bytes(), &[0xD5]);
    assert_eq!(record.get(0), 1);
    assert_eq!(record.get(1), 85);
}

#[test]
fn record_of_three_three_two_bits() {
    let mut record = Record::new(&[3, 3, 2]).ok().unwrap();
    record.set(0, 5);
    record.set(1, 3);
    record.set(2, 2);
    assert_eq!(record.as_bytes(), &[0xAE]);
    assert_eq!(record.get(0), 5);
    assert_eq!(record.get(1), 3);
    assert_eq!(record.get(2), 2);
}

#[test]
fn setting_one_field_keeps_the_others() {
    let widths = [1usize, 3, 4, 24, 9, 23, 128, 64];
    let mut record = Record::new(&widths).ok().unwrap();
    let values: [u128; 8] =
        [1, 5, 9, 0xABCDEF, 0x155, 0x7F_FFFF, u128::MAX, 0x0123_4567_89AB_CDEF];
    let mut order = [6usize, 0, 7, 3, 1, 5, 2, 4];
    order.reverse();
    let mut done: Vec<usize> = Vec::new();
    for &field in order.iter() {
        record.set(field, values[field]);
        done.push(field);
        for (other, width) in widths.iter().enumerate() {
            let _ = width;
            let expected = if done.contains(&other) { values[other] } else { 0 };
            assert_eq!(record.get(other), expected);
        }
    }
    assert_eq!(record.as_bytes().len(), 32);
}

#[test]
fn an_oversized_value_does_not_spill_into_neighbours() {
    let mut record = Record::new(&[3, 3, 2]).ok().unwrap();
    record.set(1, 0xFF);
    assert_eq!(record.get(0), 0);
    assert_eq!(record.get(1), 7);
    assert_eq!(record.get(2), 0);
    assert_eq!(record.as_bytes(), &[0b0001_1100]);
}

#[test]
fn record_descriptors_follow_the_plan() {
    let record = Record::new(&[4, 12, 16]).ok().unwrap();
    assert_eq!(record.descriptor(0), FieldDescriptor { bit_width: 4, start_offset: 0 });
    assert_eq!(record.descriptor(1), FieldDescriptor { bit_width: 12, start_offset: 4 });
    assert_eq!(record.descriptor(2), FieldDescriptor { bit_width: 16, start_offset: 16 });
}

#[test]
fn ragged_record_is_refused() {
    assert_eq!(Record::new(&[3, 4]).err(), Some(LayoutError::NotByteAligned { remainder: 7 }));
}

#[test]
fn too_wide_field_is_refused_first() {
    assert_eq!(
        Record::new(&[3, 129, 200]).err(),
        Some(LayoutError::UnsupportedWidth { width: 129 })
    );
    assert!(Record::new(&[128, 128]).is_ok());
}

#[test]
fn record_beyond_what_a_usize_counts_is_refused() {
    assert_eq!(Record::new(&[usize::MAX, 1]).err(), Some(LayoutError::TooLarge));
    assert_eq!(Record::new(&[usize::MAX, 8, 200]).err(), Some(LayoutError::TooLarge));
    assert_eq!(
        Record::new(&[usize::MAX - 7, 7]).err(),
        Some(LayoutError::UnsupportedWidth { width: usize::MAX - 7 })
    );
}

#[test]
fn empty_record_has_no_bytes() {
    let record = Record::new(&[]).ok().unwrap();
    assert_eq!(record.field_count(), 0);
    assert!(record.as_bytes().is_empty());
}
