# etail_image_processor

Builds the image catalog CSV for a folder of product images. Each JPG name
encodes a SKU (`HT-033923820684.jpg` is the main image, `HT-033923820684-2.jpg`
its second secondary image); the library orders the names, reports SKUs that
have secondary images but no main image, groups the rows by SKU and encodes
the CSV file (UTF-8 byte-order mark, `FileName,Sku` header).

- `src/` is the verified library: `text` (trimming, digits, code-point order),
  `file_names` (stems, SKUs, the image order and its sort), `catalog` (rows
  and the secondary-only summary), `csv_output` (grouping, CSV bytes, dated
  output name), `colors` (the colorscheme file), `workflow` (the steps of a
  run, of settling a clash with an existing output file, and where the
  rename dialog opens).
- `app/` is the desktop front end (iced window, rfd dialogs, file system).
- `tests/` runs the library on concrete inputs.
