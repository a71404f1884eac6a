use dxf_sheets::{sheet_label, sheet_labels};

#[test]
fn a_label_is_position_slash_total() {
    assert_eq!(sheet_label(1, 2), "1/2");
    assert_eq!(sheet_label(2, 2), "2/2");
}

#[test]
fn numbers_of_several_digits_are_written_in_full() {
    assert_eq!(sheet_label(10, 120), "10/120");
    assert_eq!(sheet_label(1000, 1001), "1000/1001");
    assert_eq!(sheet_label(907, 100000), "907/100000");
}

#[test]
fn zero_is_written_as_one_digit() {
    assert_eq!(sheet_label(0, 0), "0/0");
}

#[test]
fn the_largest_numbers_are_written_as_the_machine_prints_them() {
    assert_eq!(
        sheet_label(usize::MAX, usize::MAX),
        format!("{}/{}", usize::MAX, usize::MAX)
    );
}

#[test]
fn sheets_are_counted_from_one_in_scan_order() {
    assert_eq!(sheet_labels(3), vec!["1/3", "2/3", "3/3"]);
    assert_eq!(sheet_labels(1), vec!["1/1"]);
}

#[test]
fn no_sheets_have_no_labels() {
    assert!(sheet_labels(0).is_empty());
}

#[test]
fn twelve_sheets_pass_from_one_digit_to_two() {
    let labels = sheet_labels(12);
    assert_eq!(labels.len(), 12);
    assert_eq!(labels[8], "9/12");
    assert_eq!(labels[9], "10/12");
    assert_eq!(labels[11], "12/12");
}
