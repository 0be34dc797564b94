//! Builds the image catalog CSV for an e-commerce image folder: the SKU that
//! each JPG image belongs to, the order of images, the secondary images whose
//! SKU lacks a main image, and the grouped CSV file.
pub mod catalog;
pub mod colors;
pub mod csv_output;
pub mod file_names;
pub mod text;
pub mod workflow;

pub use catalog::{collect_image_rows, secondary_only_summary, CatalogError, ImageCollection, ImageRow};
pub use colors::{colors_from_scheme, hex_or_default, parse_hex_color, ColorScheme, Rgb};
pub use csv_output::{
    build_image_output_target, default_output_file_name, encode_image_csv, group_rows_by_sku, CalendarDate,
    ImageOutputTarget,
};
pub use file_names::{list_jpg_names, parent_sku_from_filename, parse_image_variant, sort_image_names, sort_key};
