use dxf_sheets::{extract_numbers, extract_numbers_from_names};

#[test]
fn runs_are_read_from_left_to_right() {
    assert_eq!(extract_numbers("Sheet07_Rev2.dxf"), vec![7, 2]);
}

#[test]
fn a_name_without_digits_has_no_numbers() {
    assert_eq!(extract_numbers("NoDigits.dxf"), Vec::<u32>::new());
    assert_eq!(extract_numbers(""), Vec::<u32>::new());
}

#[test]
fn leading_zeros_count_for_nothing() {
    assert_eq!(extract_numbers("007"), vec![7]);
    assert_eq!(extract_numbers("a000b"), vec![0]);
    assert_eq!(extract_numbers("00000000000000000000000000001.dxf"), vec![1]);
}

#[test]
fn digits_at_the_end_are_a_run() {
    assert_eq!(extract_numbers("plan123"), vec![123]);
    assert_eq!(extract_numbers("5"), vec![5]);
}

#[test]
fn a_run_is_taken_whole() {
    assert_eq!(extract_numbers("12a34b56"), vec![12, 34, 56]);
    assert_eq!(extract_numbers("1.2.3"), vec![1, 2, 3]);
    assert_eq!(extract_numbers("2024-06-30_rev10.dxf"), vec![2024, 6, 30, 10]);
}

#[test]
fn the_largest_u32_is_kept() {
    assert_eq!(extract_numbers("n4294967295"), vec![4294967295]);
}

#[test]
fn a_run_too_large_for_u32_is_dropped() {
    assert_eq!(extract_numbers("4294967296"), Vec::<u32>::new());
    assert_eq!(extract_numbers("a4294967296b17"), vec![17]);
    assert_eq!(extract_numbers("3_99999999999999999999_4"), vec![3, 4]);
    assert_eq!(extract_numbers("42949672950"), Vec::<u32>::new());
}

#[test]
fn only_the_ten_ascii_digits_are_digits() {
    assert_eq!(extract_numbers("a٣b"), Vec::<u32>::new());
    assert_eq!(extract_numbers("１２"), Vec::<u32>::new());
    assert_eq!(extract_numbers("é12ø3"), vec![12, 3]);
}

fn named(path: &'static str, name: &str) -> (&'static str, Option<String>) {
    (path, Some(String::from(name)))
}

#[test]
fn each_file_keeps_its_place_and_gets_its_numbers() {
    let files = vec![
        named("dir/A1.dxf", "A1.dxf"),
        named("dir/B2.dxf", "B2.dxf"),
        named("dir/plan.dxf", "plan.dxf"),
        named("dir/Sheet07_Rev2.dxf", "Sheet07_Rev2.dxf"),
    ];
    assert_eq!(
        extract_numbers_from_names(files),
        vec![
            ("dir/A1.dxf", vec![1]),
            ("dir/B2.dxf", vec![2]),
            ("dir/plan.dxf", vec![]),
            ("dir/Sheet07_Rev2.dxf", vec![7, 2]),
        ]
    );
}

#[test]
fn a_path_without_a_file_name_yields_no_pair() {
    let files = vec![named("a1.dxf", "a1.dxf"), ("..", None), named("b2.dxf", "b2.dxf")];
    assert_eq!(
        extract_numbers_from_names(files),
        vec![("a1.dxf", vec![1]), ("b2.dxf", vec![2])]
    );
}

#[test]
fn paths_without_file_names_alone_yield_nothing() {
    let files: Vec<(u8, Option<String>)> = vec![(1, None), (2, None)];
    assert!(extract_numbers_from_names(files).is_empty());
}

#[test]
fn no_files_give_no_numbers() {
    let files: Vec<(u8, Option<String>)> = Vec::new();
    assert!(extract_numbers_from_names(files).is_empty());
}
