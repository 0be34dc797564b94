use etail_image_processor::file_names::is_jpg_file_name;
use etail_image_processor::{
    collect_image_rows, list_jpg_names, parent_sku_from_filename, parse_image_variant,
    secondary_only_summary, sort_image_names, sort_key, CatalogError,
};

#[test]
fn strips_numeric_image_suffix_when_present() {
    assert_eq!(
        parent_sku_from_filename("HT-033923820684-1.jpg"),
        "HT-033923820684"
    );
}

#[test]
fn does_not_strip_when_no_numeric_suffix() {
    assert_eq!(parent_sku_from_filename("ABC-DEF.jpg"), "ABC-DEF");
}

#[test]
fn keeps_full_stem_when_single_dash_prefix() {
    assert_eq!(parent_sku_from_filename("SKU-1.jpg"), "SKU-1");
}

#[test]
fn sorts_main_image_before_secondary_images() {
    let mut names = vec![
        "HT-033923820684-2.jpg".to_owned(),
        "HT-033923820684.jpg".to_owned(),
        "HT-033923820684-1.jpg".to_owned(),
        "HT-033923820882-1.jpg".to_owned(),
        "HT-033923820882.jpg".to_owned(),
    ];

    sort_image_names(&mut names);

    assert_eq!(
        names,
        vec![
            "HT-033923820684.jpg",
            "HT-033923820684-1.jpg",
            "HT-033923820684-2.jpg",
            "HT-033923820882.jpg",
            "HT-033923820882-1.jpg",
        ]
    );
}

#[test]
fn reports_secondary_only_skus_and_images() {
    let names = vec![
        "HT-000000000001-1.jpg".to_owned(),
        "HT-000000000001-2.jpg".to_owned(),
        "HT-000000000002.jpg".to_owned(),
        "HT-000000000002-1.jpg".to_owned(),
        "HT-000000000003-1.jpg".to_owned(),
    ];

    let (sku_count, images) = secondary_only_summary(&names);

    assert_eq!(sku_count, 2);
    assert_eq!(
        images,
        vec![
            "HT-000000000001-1.jpg",
            "HT-000000000001-2.jpg",
            "HT-000000000003-1.jpg",
        ]
    );
}

#[test]
fn secondary_only_images_come_in_sku_order_then_input_order() {
    let names = vec![
        "ZZ-9-2.jpg".to_owned(),
        "AA-1-3.jpg".to_owned(),
        "ZZ-9-1.jpg".to_owned(),
        "AA-1-1.jpg".to_owned(),
        "MM-5.jpg".to_owned(),
        "MM-5-1.jpg".to_owned(),
    ];
    let (sku_count, images) = secondary_only_summary(&names);
    assert_eq!(sku_count, 2);
    assert_eq!(images, vec!["AA-1-3.jpg", "AA-1-1.jpg", "ZZ-9-2.jpg", "ZZ-9-1.jpg"]);
}

#[test]
fn summary_of_no_names_is_empty() {
    let names: Vec<String> = Vec::new();
    let (sku_count, images) = secondary_only_summary(&names);
    assert_eq!(sku_count, 0);
    assert!(images.is_empty());
}

#[test]
fn parses_secondary_index_and_sku() {
    assert_eq!(
        parse_image_variant("HT-033923820684-12.jpg"),
        ("HT-033923820684".to_owned(), Some(12))
    );
    assert_eq!(
        parse_image_variant("HT-033923820684.jpg"),
        ("HT-033923820684".to_owned(), None)
    );
    assert_eq!(parse_image_variant("SKU-1.jpg"), ("SKU-1".to_owned(), None));
    assert_eq!(parse_image_variant("NODASH.jpg"), ("NODASH".to_owned(), None));
}

#[test]
fn index_that_does_not_fit_keeps_the_parent_sku() {
    assert_eq!(
        parse_image_variant("HT-1-99999999999.jpg"),
        ("HT-1".to_owned(), None)
    );
    assert_eq!(parse_image_variant("HT-1-.jpg"), ("HT-1".to_owned(), None));
    assert_eq!(parse_image_variant("HT-1-4294967295.jpg"), ("HT-1".to_owned(), Some(4294967295)));
}

#[test]
fn stem_follows_path_rules() {
    assert_eq!(parent_sku_from_filename("dir/HT-1-2.jpg"), "HT-1");
    assert_eq!(parent_sku_from_filename("archive.tar.gz"), "archive.tar");
    assert_eq!(parent_sku_from_filename(".hidden"), ".hidden");
    assert_eq!(parent_sku_from_filename("a/."), "a");
    assert_eq!(parent_sku_from_filename(".."), "..");
    assert_eq!(parent_sku_from_filename(""), "");
    assert_eq!(parent_sku_from_filename("dir/"), "dir");
}

#[test]
fn sort_key_ranks_main_before_secondary() {
    assert_eq!(
        sort_key("HT-1-7.jpg"),
        ("HT-1".to_owned(), 1, 7, "HT-1-7.jpg".to_owned())
    );
    assert_eq!(
        sort_key("HT-1.jpg"),
        ("HT-1".to_owned(), 0, 0, "HT-1.jpg".to_owned())
    );
}

#[test]
fn secondary_images_sort_by_number_not_text() {
    let mut names = vec![
        "HT-1-10.jpg".to_owned(),
        "HT-1-9.jpg".to_owned(),
        "HT-1.jpg".to_owned(),
    ];
    sort_image_names(&mut names);
    assert_eq!(names, vec!["HT-1.jpg", "HT-1-9.jpg", "HT-1-10.jpg"]);
}

#[test]
fn sorting_sorted_names_changes_nothing() {
    let mut names = vec![
        "A-1.jpg".to_owned(),
        "A-1-1.jpg".to_owned(),
        "B-2.jpg".to_owned(),
    ];
    let before = names.clone();
    sort_image_names(&mut names);
    assert_eq!(names, before);
}

#[test]
fn jpg_names_are_recognised_in_any_case() {
    assert!(is_jpg_file_name("a.jpg"));
    assert!(is_jpg_file_name("a.JPG"));
    assert!(is_jpg_file_name("a.JpG"));
    assert!(!is_jpg_file_name("a.jpeg"));
    assert!(!is_jpg_file_name(".jpg"));
    assert!(!is_jpg_file_name("jpg"));
    assert!(!is_jpg_file_name("a.png"));
}

#[test]
fn lists_only_jpg_names_in_image_order() {
    let names = vec![
        "HT-1-1.JPG".to_owned(),
        "notes.txt".to_owned(),
        "HT-1.jpg".to_owned(),
        "ALPHA.jpg".to_owned(),
    ];
    assert_eq!(list_jpg_names(names), vec!["ALPHA.jpg", "HT-1.jpg", "HT-1-1.JPG"]);
}

#[test]
fn collects_rows_under_normalized_unc_base() {
    let names = vec![
        "HT-000000000002-1.jpg".to_owned(),
        "HT-000000000002.jpg".to_owned(),
        "readme.txt".to_owned(),
        "HT-000000000003-1.jpg".to_owned(),
    ];
    let collection = collect_image_rows(names, "  \\\\server\\share\\\\  ").unwrap();
    let rows: Vec<(String, String)> = collection
        .image_rows
        .iter()
        .map(|row| (row.file_name.clone(), row.sku.clone()))
        .collect();
    assert_eq!(
        rows,
        vec![
            (
                "\\\\server\\share\\HT-000000000002.jpg".to_owned(),
                "HT-000000000002".to_owned()
            ),
            (
                "\\\\server\\share\\HT-000000000002-1.jpg".to_owned(),
                "HT-000000000002".to_owned()
            ),
            (
                "\\\\server\\share\\HT-000000000003-1.jpg".to_owned(),
                "HT-000000000003".to_owned()
            ),
        ]
    );
    assert_eq!(collection.secondary_only_sku_count, 1);
    assert_eq!(collection.secondary_only_images, vec!["HT-000000000003-1.jpg"]);
}

#[test]
fn blank_unc_base_is_rejected() {
    let names = vec!["HT-1.jpg".to_owned()];
    let result = collect_image_rows(names, "  \\\\\\ ");
    assert_eq!(result.unwrap_err(), CatalogError::BlankUncBase);
    assert_eq!(CatalogError::BlankUncBase.message(), "UNC base path cannot be blank");
}

#[test]
fn secondary_names_read_back_as_their_sku_and_index() {
    for (sku, n) in [("HT-1", 0u32), ("HT-033923820684", 7), ("A-B-C", 42), ("x-", u32::MAX)] {
        let name = format!("{}-{}.jpg", sku, n);
        assert_eq!(parse_image_variant(&name), (sku.to_owned(), Some(n)));
        assert_eq!(parent_sku_from_filename(&name), sku);
    }
}
