use std::path::Path;

use etail_image_processor::{
    build_image_output_target, default_output_file_name, encode_image_csv, group_rows_by_sku,
    CalendarDate, ImageRow,
};

#[test]
fn groups_multiple_images_for_same_sku_into_one_row() {
    let rows = vec![
        ImageRow {
            file_name: r"\\etail.rs\files\hardwaretools\Images2\Images_Uploaded_3_18_26\HT-033923820684.jpg".to_owned(),
            sku: "HT-033923820684".to_owned(),
        },
        ImageRow {
            file_name: r"\\etail.rs\files\hardwaretools\Images2\Images_Uploaded_3_18_26\HT-033923820684-1.jpg".to_owned(),
            sku: "HT-033923820684".to_owned(),
        },
        ImageRow {
            file_name: r"\\etail.rs\files\hardwaretools\Images2\Images_Uploaded_3_18_26\HT-033923820684-2.jpg".to_owned(),
            sku: "HT-033923820684".to_owned(),
        },
    ];

    let grouped = group_rows_by_sku(&rows);

    assert_eq!(grouped.len(), 1);
    assert_eq!(grouped[0].sku, "HT-033923820684");
    assert_eq!(
        grouped[0].file_name,
        r"\\etail.rs\files\hardwaretools\Images2\Images_Uploaded_3_18_26\HT-033923820684.jpg|\\etail.rs\files\hardwaretools\Images2\Images_Uploaded_3_18_26\HT-033923820684-1.jpg|\\etail.rs\files\hardwaretools\Images2\Images_Uploaded_3_18_26\HT-033923820684-2.jpg"
    );
}

#[test]
fn preserves_first_seen_sku_order() {
    let rows = vec![
        ImageRow {
            file_name: "first-a.jpg".to_owned(),
            sku: "SKU-A".to_owned(),
        },
        ImageRow {
            file_name: "first-b.jpg".to_owned(),
            sku: "SKU-B".to_owned(),
        },
        ImageRow {
            file_name: "second-a.jpg".to_owned(),
            sku: "SKU-A".to_owned(),
        },
    ];

    let grouped = group_rows_by_sku(&rows);

    assert_eq!(grouped.len(), 2);
    assert_eq!(grouped[0].sku, "SKU-A");
    assert_eq!(grouped[0].file_name, "first-a.jpg|second-a.jpg");
    assert_eq!(grouped[1].sku, "SKU-B");
    assert_eq!(grouped[1].file_name, "first-b.jpg");
}

#[test]
fn grouping_grouped_rows_changes_nothing() {
    let rows = vec![
        ImageRow { file_name: "a1".to_owned(), sku: "A".to_owned() },
        ImageRow { file_name: "b1".to_owned(), sku: "B".to_owned() },
        ImageRow { file_name: "a2".to_owned(), sku: "A".to_owned() },
    ];
    let once = group_rows_by_sku(&rows);
    let twice = group_rows_by_sku(&once);
    let view = |rows: &Vec<ImageRow>| -> Vec<(String, String)> {
        rows.iter().map(|r| (r.file_name.clone(), r.sku.clone())).collect()
    };
    assert_eq!(view(&once), view(&twice));
}

#[test]
fn uses_default_dated_output_name_when_none_provided() {
    let date = CalendarDate::new(2026, 3, 25).expect("valid test date");
    let target = build_image_output_target("/tmp/out", date, None);

    assert_eq!(Path::new(&target.images_csv), Path::new("/tmp/out/images_20260325.csv"));
}

#[test]
fn uses_custom_output_name_when_provided() {
    let date = CalendarDate::new(2026, 3, 25).expect("valid test date");
    let target = build_image_output_target("/tmp/out", date, Some("custom.csv"));

    assert_eq!(Path::new(&target.images_csv), Path::new("/tmp/out/custom.csv"));
}

#[test]
fn blank_custom_name_falls_back_to_default() {
    let date = CalendarDate::new(2024, 12, 5).unwrap();
    let target = build_image_output_target("/data", date, Some("   "));
    assert_eq!(target.images_csv, "/data/images_20241205.csv");
    let target = build_image_output_target("/data", date, Some("  mine.csv \t"));
    assert_eq!(target.images_csv, "/data/mine.csv");
}

#[test]
fn default_name_pads_and_signs_years() {
    assert_eq!(
        default_output_file_name(CalendarDate::new(7, 1, 2).unwrap()),
        "images_00070102.csv"
    );
    assert_eq!(
        default_output_file_name(CalendarDate::new(-44, 3, 15).unwrap()),
        "images_-00440315.csv"
    );
    assert_eq!(
        default_output_file_name(CalendarDate::new(12345, 6, 7).unwrap()),
        "images_+123450607.csv"
    );
}

#[test]
fn calendar_dates_are_checked() {
    assert!(CalendarDate::new(2024, 2, 29).is_some());
    assert!(CalendarDate::new(2023, 2, 29).is_none());
    assert!(CalendarDate::new(1900, 2, 29).is_none());
    assert!(CalendarDate::new(2000, 2, 29).is_some());
    assert!(CalendarDate::new(2023, 4, 31).is_none());
    assert!(CalendarDate::new(2023, 13, 1).is_none());
    assert!(CalendarDate::new(2023, 1, 0).is_none());
    assert!(CalendarDate::new(262143, 1, 1).is_none());
    assert!(CalendarDate::new(-262143, 1, 1).is_some());
    let d = CalendarDate::new(2026, 3, 25).unwrap();
    assert_eq!((d.year(), d.month(), d.day()), (2026, 3, 25));
}

#[test]
fn encodes_bom_header_and_grouped_rows() {
    let rows = vec![
        ImageRow { file_name: "x-1.jpg".to_owned(), sku: "X".to_owned() },
        ImageRow { file_name: "y, \"z\".jpg".to_owned(), sku: "Y".to_owned() },
        ImageRow { file_name: "x-2.jpg".to_owned(), sku: "X".to_owned() },
    ];
    let (bytes, count) = encode_image_csv(&rows);
    assert_eq!(count, 2);
    let mut expected = vec![0xEF, 0xBB, 0xBF];
    expected.extend_from_slice(b"FileName,Sku\nx-1.jpg|x-2.jpg,X\n\"y, \"\"z\"\".jpg\",Y\n");
    assert_eq!(bytes, expected);
}

#[test]
fn encodes_empty_rows_as_header_only() {
    let rows: Vec<ImageRow> = Vec::new();
    let (bytes, count) = encode_image_csv(&rows);
    assert_eq!(count, 0);
    let mut expected = vec![0xEF, 0xBB, 0xBF];
    expected.extend_from_slice(b"FileName,Sku\n");
    assert_eq!(bytes, expected);
}

#[test]
fn a_name_from_the_root_replaces_the_folder() {
    let date = CalendarDate::new(2026, 3, 25).expect("valid test date");
    let o = "/tmp/out";
    assert_eq!(
        Path::new(&build_image_output_target(o, date, Some("   ")).images_csv),
        Path::new("/tmp/out/images_20260325.csv")
    );
    assert_eq!(
        Path::new(&build_image_output_target(o, date, Some("  custom.csv  ")).images_csv),
        Path::new("/tmp/out/custom.csv")
    );
    assert_eq!(build_image_output_target(o, date, Some("/abs/x.csv")).images_csv, "/abs/x.csv");
}

#[test]
fn the_chosen_name_ends_the_path_in_any_folder() {
    let date = CalendarDate::new(2026, 3, 25).expect("valid test date");
    let target = build_image_output_target("/tmp/out/", date, Some("a.csv"));
    assert!(target.images_csv.ends_with("a.csv"));
    assert_eq!(target.images_csv, "/tmp/out/a.csv");
    let target = build_image_output_target("", date, None);
    assert_eq!(target.images_csv, "images_20260325.csv");
}

#[test]
fn relative_names_are_appended_as_written() {
    let date = CalendarDate::new(2026, 3, 25).expect("valid test date");
    assert_eq!(build_image_output_target("/", date, Some("x.csv")).images_csv, "/x.csv");
    assert_eq!(
        Path::new(&build_image_output_target("/tmp/out", date, Some("sub/x.csv")).images_csv),
        Path::new("/tmp/out/sub/x.csv")
    );
    assert_eq!(build_image_output_target("", date, Some("sub/x.csv")).images_csv, "sub/x.csv");
}

#[test]
fn the_folder_is_kept_before_a_plain_name() {
    let date = CalendarDate::new(2026, 3, 25).expect("valid test date");
    let folder = r"C:\Users\me\out";
    let target = build_image_output_target(folder, date, Some("x.csv"));
    assert!(target.images_csv.starts_with(folder));
    assert!(target.images_csv.ends_with("x.csv"));
    assert_eq!(target.images_csv.len(), folder.len() + 1 + "x.csv".len());
}
